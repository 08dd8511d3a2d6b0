//! Canonical versions and support policy for machine-readable boundaries.

use vstd::prelude::*;

verus! {

/// Current compiled inspection JSON format version.
pub const COMPILED_INSPECTION_FORMAT_VERSION: u32 = 22;
/// Current prepared inspection JSON format version.
pub const PREPARED_INSPECTION_FORMAT_VERSION: u32 = 13;
/// Current render manifest format version.
pub const RENDER_MANIFEST_FORMAT_VERSION: u32 = 1;
/// Current external-program request protocol version.
pub const EXTERNAL_PROGRAM_PROTOCOL_VERSION: u32 = 1;
/// Current browser render-plan version.
pub const BROWSER_RENDER_PLAN_VERSION: u32 = 1;
/// Current browser `FFmpeg` recipe contract version.
pub const BROWSER_RECIPE_CONTRACT_VERSION: u32 = 2;

/// A machine-readable boundary produced by `ClipAsm`.
#[derive(Clone, Copy, Debug, PartialEq, Eq, Structural, Hash, PartialOrd, Ord)]
pub enum MachineContract {
    /// JSON printed by `clipasm inspect` and the compiled-program JSON view.
    CompiledInspection,
    /// JSON returned by the prepared-plan JSON view.
    PreparedInspection,
    /// JSON manifest published beside a rendered MP4.
    RenderManifest,
    /// JSON request sent to an external program over standard input.
    ExternalProgramRequest,
    /// JSON plan consumed by the shipped browser render host.
    BrowserRenderPlan,
}

/// Contracts in stable reference order.
pub open spec fn spec_all_contracts() -> Seq<MachineContract> {
    seq![
        MachineContract::CompiledInspection,
        MachineContract::RenderManifest,
        MachineContract::ExternalProgramRequest,
        MachineContract::PreparedInspection,
        MachineContract::BrowserRenderPlan,
    ]
}

impl MachineContract {
    /// Return every contract in stable reference order.
    pub fn all() -> (contracts: [MachineContract; 5])
        ensures
            contracts@ == spec_all_contracts(),
    {
        let contracts = [
            MachineContract::CompiledInspection,
            MachineContract::RenderManifest,
            MachineContract::ExternalProgramRequest,
            MachineContract::PreparedInspection,
            MachineContract::BrowserRenderPlan,
        ];
        assert(contracts@ =~= spec_all_contracts());
        contracts
    }

    /// Return this contract's immutable reference metadata.
    pub fn reference(self) -> (reference: MachineContractReference)
        ensures
            reference.spec_matches(self),
    {
        reference(self)
    }
}

/// Intended consumer of a machine-readable contract.
#[derive(Clone, Copy, Debug, PartialEq, Eq, Structural, Hash, PartialOrd, Ord)]
pub enum MachineContractAudience {
    /// User tooling and integrations.
    UserTooling,
    /// Executables implementing authored external programs.
    ExternalPrograms,
    /// A host adapter shipped and updated together with `ClipAsm`.
    ShippedHostAdapter,
}

/// The human-readable label of an audience.
pub open spec fn spec_audience_label(audience: MachineContractAudience) -> Seq<char> {
    match audience {
        MachineContractAudience::UserTooling => "User tooling"@,
        MachineContractAudience::ExternalPrograms => "External programs"@,
        MachineContractAudience::ShippedHostAdapter => "Shipped host adapter"@,
    }
}

impl MachineContractAudience {
    /// Return a concise human-readable label.
    pub fn label(self) -> (label: &'static str)
        ensures
            label@ == spec_audience_label(self),
    {
        match self {
            MachineContractAudience::UserTooling => "User tooling",
            MachineContractAudience::ExternalPrograms => "External programs",
            MachineContractAudience::ShippedHostAdapter => "Shipped host adapter",
        }
    }
}

/// Compatibility promise attached to a machine-readable contract.
#[derive(Clone, Copy, Debug, PartialEq, Eq, Structural, Hash, PartialOrd, Ord)]
pub enum MachineContractStability {
    /// The shape is versioned for consumers outside the `ClipAsm` implementation.
    Versioned,
    /// The shape is an implementation detail of components released together.
    HostInternal,
}

/// The human-readable label of a stability policy.
pub open spec fn spec_stability_label(stability: MachineContractStability) -> Seq<char> {
    match stability {
        MachineContractStability::Versioned => "Versioned integration contract"@,
        MachineContractStability::HostInternal => "Host-internal contract"@,
    }
}

impl MachineContractStability {
    /// Return a concise human-readable label.
    pub fn label(self) -> (label: &'static str)
        ensures
            label@ == spec_stability_label(self),
    {
        match self {
            MachineContractStability::Versioned => "Versioned integration contract",
            MachineContractStability::HostInternal => "Host-internal contract",
        }
    }
}

/// One version discriminator carried by a machine-readable document.
#[derive(Clone, Copy, Debug, PartialEq, Eq, Hash)]
pub struct MachineContractVersion {
    field: &'static str,
    value: u32,
    meaning: &'static str,
}

impl MachineContractVersion {
    /// The JSON field containing this version.
    pub closed spec fn spec_field(self) -> Seq<char> {
        self.field@
    }

    /// The current version value.
    pub closed spec fn spec_value(self) -> u32 {
        self.value
    }

    /// What this discriminator versions.
    pub closed spec fn spec_meaning(self) -> Seq<char> {
        self.meaning@
    }

    /// Return the JSON field containing this version.
    pub fn field(self) -> (field: &'static str)
        ensures
            field@ == self.spec_field(),
    {
        self.field
    }

    /// Return the current version value.
    pub fn value(self) -> (value: u32)
        ensures
            value == self.spec_value(),
    {
        self.value
    }

    /// Return what this discriminator versions.
    pub fn meaning(self) -> (meaning: &'static str)
        ensures
            meaning@ == self.spec_meaning(),
    {
        self.meaning
    }
}

/// Read-only reference facts for one machine-readable contract.
#[derive(Clone, Debug, PartialEq, Eq)]
pub struct MachineContractReference {
    contract: MachineContract,
    slug: &'static str,
    title: &'static str,
    summary: &'static str,
    audience: MachineContractAudience,
    stability: MachineContractStability,
    versions: Vec<MachineContractVersion>,
}

/// The documentation anchor of a contract.
pub open spec fn spec_slug(contract: MachineContract) -> Seq<char> {
    match contract {
        MachineContract::CompiledInspection => "compiled-inspection-json"@,
        MachineContract::RenderManifest => "render-manifest"@,
        MachineContract::ExternalProgramRequest => "external-program-request"@,
        MachineContract::PreparedInspection => "prepared-inspection-json"@,
        MachineContract::BrowserRenderPlan => "browser-render-plan"@,
    }
}

/// The user-facing title of a contract.
pub open spec fn spec_title(contract: MachineContract) -> Seq<char> {
    match contract {
        MachineContract::CompiledInspection => "Compiled inspection JSON"@,
        MachineContract::RenderManifest => "Render manifest"@,
        MachineContract::ExternalProgramRequest => "External-program request"@,
        MachineContract::PreparedInspection => "Prepared inspection JSON"@,
        MachineContract::BrowserRenderPlan => "Browser render plan"@,
    }
}

/// The concise purpose of a contract.
pub open spec fn spec_summary(contract: MachineContract) -> Seq<char> {
    match contract {
        MachineContract::CompiledInspection => "A source-independent view of compiled semantics for inspection and tooling."@,
        MachineContract::RenderManifest => "Path-free metadata published beside a rendered MP4."@,
        MachineContract::ExternalProgramRequest => "The JSON request sent to a trusted external program over standard input."@,
        MachineContract::PreparedInspection => "A local debugging view of resolved assets, tools, and renderer primitives."@,
        MachineContract::BrowserRenderPlan => "Virtual paths, FFmpeg argument arrays, and artifact contracts for the shipped browser host."@,
    }
}

/// The intended consumers of a contract.
pub open spec fn spec_audience(contract: MachineContract) -> MachineContractAudience {
    match contract {
        MachineContract::CompiledInspection => MachineContractAudience::UserTooling,
        MachineContract::RenderManifest => MachineContractAudience::UserTooling,
        MachineContract::ExternalProgramRequest => MachineContractAudience::ExternalPrograms,
        MachineContract::PreparedInspection => MachineContractAudience::ShippedHostAdapter,
        MachineContract::BrowserRenderPlan => MachineContractAudience::ShippedHostAdapter,
    }
}

/// The compatibility policy of a contract.
pub open spec fn spec_stability(contract: MachineContract) -> MachineContractStability {
    match contract {
        MachineContract::CompiledInspection => MachineContractStability::Versioned,
        MachineContract::RenderManifest => MachineContractStability::Versioned,
        MachineContract::ExternalProgramRequest => MachineContractStability::Versioned,
        MachineContract::PreparedInspection => MachineContractStability::HostInternal,
        MachineContract::BrowserRenderPlan => MachineContractStability::HostInternal,
    }
}

/// The version discriminators of a contract as (field, value, meaning) triples.
pub open spec fn spec_versions(contract: MachineContract) -> Seq<(Seq<char>, u32, Seq<char>)> {
    match contract {
        MachineContract::CompiledInspection => seq![
            ("format_version"@, COMPILED_INSPECTION_FORMAT_VERSION, "compiled inspection document shape"@),
        ],
        MachineContract::RenderManifest => seq![
            ("format_version"@, RENDER_MANIFEST_FORMAT_VERSION, "render manifest shape"@),
        ],
        MachineContract::ExternalProgramRequest => seq![
            ("protocol_version"@, EXTERNAL_PROGRAM_PROTOCOL_VERSION, "external-program request protocol"@),
        ],
        MachineContract::PreparedInspection => seq![
            ("format_version"@, PREPARED_INSPECTION_FORMAT_VERSION, "prepared inspection document shape"@),
        ],
        MachineContract::BrowserRenderPlan => seq![
            ("version"@, BROWSER_RENDER_PLAN_VERSION, "browser render-plan envelope"@),
            ("recipe_contract"@, BROWSER_RECIPE_CONTRACT_VERSION, "FFmpeg argument and artifact recipe contract"@),
        ],
    }
}

/// The (field, value, meaning) view of a version discriminator.
pub open spec fn spec_version_view(version: MachineContractVersion) -> (Seq<char>, u32, Seq<char>) {
    (version.spec_field(), version.spec_value(), version.spec_meaning())
}

impl MachineContractReference {
    /// The typed contract identifier.
    pub closed spec fn spec_contract(&self) -> MachineContract {
        self.contract
    }

    /// The documentation anchor slug.
    pub closed spec fn spec_slug(&self) -> Seq<char> {
        self.slug@
    }

    /// The user-facing title.
    pub closed spec fn spec_title(&self) -> Seq<char> {
        self.title@
    }

    /// The concise purpose.
    pub closed spec fn spec_summary(&self) -> Seq<char> {
        self.summary@
    }

    /// The intended consumer group.
    pub closed spec fn spec_audience(&self) -> MachineContractAudience {
        self.audience
    }

    /// The compatibility policy.
    pub closed spec fn spec_stability(&self) -> MachineContractStability {
        self.stability
    }

    /// The version discriminators.
    pub closed spec fn spec_versions(&self) -> Seq<MachineContractVersion> {
        self.versions@
    }

    /// Whether this reference holds exactly the catalog facts of `contract`.
    pub open spec fn spec_matches(&self, contract: MachineContract) -> bool {
        &&& self.spec_contract() == contract
        &&& self.spec_slug() == spec_slug(contract)
        &&& self.spec_title() == spec_title(contract)
        &&& self.spec_summary() == spec_summary(contract)
        &&& self.spec_audience() == spec_audience(contract)
        &&& self.spec_stability() == spec_stability(contract)
        &&& self.spec_versions().map_values(|version: MachineContractVersion| spec_version_view(version))
            == spec_versions(contract)
    }

    /// Return the typed contract identifier.
    pub fn contract(&self) -> (contract: MachineContract)
        ensures
            contract == self.spec_contract(),
    {
        self.contract
    }

    /// Return the stable documentation anchor slug.
    pub fn slug(&self) -> (slug: &'static str)
        ensures
            slug@ == self.spec_slug(),
    {
        self.slug
    }

    /// Return the user-facing title.
    pub fn title(&self) -> (title: &'static str)
        ensures
            title@ == self.spec_title(),
    {
        self.title
    }

    /// Return the contract's concise purpose.
    pub fn summary(&self) -> (summary: &'static str)
        ensures
            summary@ == self.spec_summary(),
    {
        self.summary
    }

    /// Return the intended consumer group.
    pub fn audience(&self) -> (audience: MachineContractAudience)
        ensures
            audience == self.spec_audience(),
    {
        self.audience
    }

    /// Return the compatibility policy.
    pub fn stability(&self) -> (stability: MachineContractStability)
        ensures
            stability == self.spec_stability(),
    {
        self.stability
    }

    /// Return every version discriminator carried by this contract.
    pub fn versions(&self) -> (versions: &[MachineContractVersion])
        ensures
            versions@ == self.spec_versions(),
    {
        self.versions.as_slice()
    }

    /// Return the generated-guide route for this contract.
    pub fn documentation_route(&self) -> (route: String)
        ensures
            route@ == "reference/machine-contracts.html#"@ + self.spec_slug(),
    {
        let mut route = String::from_str("reference/machine-contracts.html#");
        route.append(self.slug);
        route
    }
}

fn version(field: &'static str, value: u32, meaning: &'static str) -> (version: MachineContractVersion)
    ensures
        spec_version_view(version) == (field@, value, meaning@),
{
    MachineContractVersion { field, value, meaning }
}

/// Return the reference facts of one contract.
pub fn reference(contract: MachineContract) -> (reference: MachineContractReference)
    ensures
        reference.spec_matches(contract),
{
    let reference = match contract {
        MachineContract::CompiledInspection => MachineContractReference {
            contract,
            slug: "compiled-inspection-json",
            title: "Compiled inspection JSON",
            summary: "A source-independent view of compiled semantics for inspection and tooling.",
            audience: MachineContractAudience::UserTooling,
            stability: MachineContractStability::Versioned,
            versions: vec![version("format_version", COMPILED_INSPECTION_FORMAT_VERSION, "compiled inspection document shape")],
        },
        MachineContract::RenderManifest => MachineContractReference {
            contract,
            slug: "render-manifest",
            title: "Render manifest",
            summary: "Path-free metadata published beside a rendered MP4.",
            audience: MachineContractAudience::UserTooling,
            stability: MachineContractStability::Versioned,
            versions: vec![version("format_version", RENDER_MANIFEST_FORMAT_VERSION, "render manifest shape")],
        },
        MachineContract::ExternalProgramRequest => MachineContractReference {
            contract,
            slug: "external-program-request",
            title: "External-program request",
            summary: "The JSON request sent to a trusted external program over standard input.",
            audience: MachineContractAudience::ExternalPrograms,
            stability: MachineContractStability::Versioned,
            versions: vec![version("protocol_version", EXTERNAL_PROGRAM_PROTOCOL_VERSION, "external-program request protocol")],
        },
        MachineContract::PreparedInspection => MachineContractReference {
            contract,
            slug: "prepared-inspection-json",
            title: "Prepared inspection JSON",
            summary: "A local debugging view of resolved assets, tools, and renderer primitives.",
            audience: MachineContractAudience::ShippedHostAdapter,
            stability: MachineContractStability::HostInternal,
            versions: vec![version("format_version", PREPARED_INSPECTION_FORMAT_VERSION, "prepared inspection document shape")],
        },
        MachineContract::BrowserRenderPlan => MachineContractReference {
            contract,
            slug: "browser-render-plan",
            title: "Browser render plan",
            summary: "Virtual paths, FFmpeg argument arrays, and artifact contracts for the shipped browser host.",
            audience: MachineContractAudience::ShippedHostAdapter,
            stability: MachineContractStability::HostInternal,
            versions: vec![
                version("version", BROWSER_RENDER_PLAN_VERSION, "browser render-plan envelope"),
                version("recipe_contract", BROWSER_RECIPE_CONTRACT_VERSION, "FFmpeg argument and artifact recipe contract"),
            ],
        },
    };
    assert(reference.versions@.map_values(|version: MachineContractVersion| spec_version_view(version))
        =~= spec_versions(contract));
    reference
}

/// Return the reference facts of every contract, in stable reference order.
pub fn references() -> (references: Vec<MachineContractReference>)
    ensures
        references@.len() == spec_all_contracts().len(),
        forall|i: int| 0 <= i < references@.len() ==> #[trigger] references@[i].spec_matches(spec_all_contracts()[i]),
{
    let contracts = MachineContract::all();
    let mut references: Vec<MachineContractReference> = Vec::new();
    let mut index: usize = 0;
    while index < 5
        invariant
            contracts@ == spec_all_contracts(),
            index <= 5,
            references@.len() == index,
            forall|i: int| 0 <= i < index ==> #[trigger] references@[i].spec_matches(spec_all_contracts()[i]),
        decreases 5 - index,
    {
        references.push(reference(contracts[index]));
        index = index + 1;
    }
    references
}

/// The catalog is complete and well formed: every contract appears once in
/// reference order, slugs are unique, every title, summary, field, and meaning
/// is non-empty, every contract carries at least one positive version, and
/// exactly the first three contracts in reference order are versioned
/// integration contracts.
pub proof fn lemma_catalog_well_formed()
    ensures
        spec_all_contracts().len() == 5,
        forall|i: int, j: int| 0 <= i < 5 && 0 <= j < 5 && i != j
            ==> spec_all_contracts()[i] != spec_all_contracts()[j],
        forall|c: MachineContract| #[trigger] spec_all_contracts().contains(c),
        forall|a: MachineContract, b: MachineContract| a != b ==> #[trigger] spec_slug(a) != #[trigger] spec_slug(b),
        forall|c: MachineContract| (#[trigger] spec_title(c)).len() > 0 && spec_summary(c).len() > 0,
        forall|c: MachineContract| (#[trigger] spec_versions(c)).len() > 0,
        forall|c: MachineContract, k: int| 0 <= k < spec_versions(c).len() ==> {
            &&& (#[trigger] spec_versions(c)[k]).0.len() > 0
            &&& spec_versions(c)[k].1 > 0
            &&& spec_versions(c)[k].2.len() > 0
        },
        forall|i: int| 0 <= i < 5 ==> (spec_stability(#[trigger] spec_all_contracts()[i])
            == MachineContractStability::Versioned <==> i < 3),
{
    reveal_strlit("compiled-inspection-json");
    reveal_strlit("render-manifest");
    reveal_strlit("external-program-request");
    reveal_strlit("prepared-inspection-json");
    reveal_strlit("browser-render-plan");
    reveal_strlit("Compiled inspection JSON");
    reveal_strlit("Render manifest");
    reveal_strlit("External-program request");
    reveal_strlit("Prepared inspection JSON");
    reveal_strlit("Browser render plan");
    reveal_strlit("A source-independent view of compiled semantics for inspection and tooling.");
    reveal_strlit("Path-free metadata published beside a rendered MP4.");
    reveal_strlit("The JSON request sent to a trusted external program over standard input.");
    reveal_strlit("A local debugging view of resolved assets, tools, and renderer primitives.");
    reveal_strlit("Virtual paths, FFmpeg argument arrays, and artifact contracts for the shipped browser host.");
    reveal_strlit("format_version");
    reveal_strlit("protocol_version");
    reveal_strlit("version");
    reveal_strlit("recipe_contract");
    reveal_strlit("compiled inspection document shape");
    reveal_strlit("render manifest shape");
    reveal_strlit("external-program request protocol");
    reveal_strlit("prepared inspection document shape");
    reveal_strlit("browser render-plan envelope");
    reveal_strlit("FFmpeg argument and artifact recipe contract");
    assert forall|a: MachineContract, b: MachineContract| a != b implies #[trigger] spec_slug(a) != #[trigger] spec_slug(b) by {
        if spec_slug(a) == spec_slug(b) {
            assert(spec_slug(a)[0] == spec_slug(b)[0]);
        }
    }
    assert forall|c: MachineContract| (#[trigger] spec_title(c)).len() > 0 && spec_summary(c).len() > 0 by {
        match c {
            MachineContract::CompiledInspection => {},
            MachineContract::RenderManifest => {},
            MachineContract::ExternalProgramRequest => {},
            MachineContract::PreparedInspection => {},
            MachineContract::BrowserRenderPlan => {},
        }
    }
}

} // verus!
