//! Storage contracts between clients and providers: creation and signing.
//! A contract starts as a draft and becomes active, with performance
//! monitoring started, once both the client and the provider have signed.

use vstd::prelude::*;
use crate::clock::unix_time_secs;
use crate::encoding::{hex_encode, hex_lower};
use crate::ids::uuid_v4_text;
use crate::types::{Hash256, StorageTier};

verus! {

/// Contract execution status.
#[derive(Debug, Clone, Copy, PartialEq, Eq, Structural)]
pub enum ContractStatus {
    /// Created but not signed by both parties.
    Draft,
    /// Signed by both parties and active.
    Active,
    /// Completed successfully.
    Completed,
    /// Terminated early.
    Terminated,
    /// In dispute.
    Disputed,
    /// Expired.
    Expired,
    /// Breached (SLA violations).
    Breached,
}

/// Who signs a contract.
#[derive(Debug, Clone, Copy, PartialEq, Eq, Structural)]
pub enum SignerType {
    Client,
    Provider,
    Witness,
}

/// Why the contract manager refused an operation.
#[derive(Debug, Clone, Copy, PartialEq, Eq, Structural)]
pub enum ContractError {
    /// No contract has this identifier.
    NotFound,
    /// The expiry time does not fit in 64 bits.
    ExpiryOverflow,
    /// The system clock reads before the Unix epoch.
    ClockBeforeEpoch,
    /// No performance monitor watches this contract.
    MonitorNotFound,
}

/// SLA violation types.
#[derive(Debug, Clone, Copy, PartialEq, Eq, Hash, Structural)]
pub enum SlaViolationType {
    UptimeViolation,
    LatencyViolation,
    ThroughputViolation,
    DataLoss,
    AvailabilityViolation,
    RecoveryTimeViolation,
}

/// Severity levels for violations.
#[derive(Debug, Clone, Copy, PartialEq, Eq, Structural)]
pub enum ViolationSeverity {
    Low,
    Medium,
    High,
    Minor,
    Moderate,
    Major,
    Critical,
}

/// Penalty terms for violations.
#[derive(Debug, Clone, Copy, PartialEq, Eq, Structural)]
pub struct PenaltyTerms {
    pub penalty_amount: u64,
    pub is_percentage: bool,
    pub max_penalty: Option<u64>,
    pub grace_period: u64,
}

/// SLA violation record.
#[derive(Debug, Clone)]
pub struct SlaViolation {
    pub timestamp: u64,
    pub violation_type: SlaViolationType,
    pub severity: ViolationSeverity,
    pub description: String,
    pub impact: String,
    pub resolved: bool,
}

/// Data integrity check result.
#[derive(Debug, Clone)]
pub struct IntegrityCheckResult {
    pub timestamp: u64,
    pub check_type: String,
    pub success: bool,
    pub error_details: Option<String>,
    pub data_hash: String,
}

/// A measurement of a contract's service in whole numbers: read and write
/// latencies in milliseconds, or a throughput.
#[derive(Debug, Clone, Copy, PartialEq, Eq, Structural)]
pub enum Measurement {
    Latency { read: u64, write: u64 },
    Throughput(u64),
}

/// The violation that measurement `m` shows against an SLA with read
/// latency limit `max_read_latency` and throughput floor `min_throughput`:
/// a read latency above the limit is a moderate latency violation, a
/// throughput below the floor a moderate throughput violation.
pub open spec fn violation_of(m: Measurement, max_read_latency: u64, min_throughput: u64) -> Option<(SlaViolationType, ViolationSeverity)> {
    match m {
        Measurement::Latency { read, .. } => if read > max_read_latency {
            Some((SlaViolationType::LatencyViolation, ViolationSeverity::Moderate))
        } else {
            None
        },
        Measurement::Throughput(t) => if t < min_throughput {
            Some((SlaViolationType::ThroughputViolation, ViolationSeverity::Moderate))
        } else {
            None
        },
    }
}

/// The violation that measurement `m` shows, if any (see `violation_of`).
pub fn measurement_violation(m: Measurement, max_read_latency: u64, min_throughput: u64) -> (r: Option<(SlaViolationType, ViolationSeverity)>)
    ensures
        r == violation_of(m, max_read_latency, min_throughput),
{
    match m {
        Measurement::Latency { read, .. } => {
            if read > max_read_latency {
                Some((SlaViolationType::LatencyViolation, ViolationSeverity::Moderate))
            } else {
                None
            }
        },
        Measurement::Throughput(t) => {
            if t < min_throughput {
                Some((SlaViolationType::ThroughputViolation, ViolationSeverity::Moderate))
            } else {
                None
            }
        },
    }
}

/// Erasure coding parameters for data redundancy.
#[derive(Debug, Clone, Copy, PartialEq, Eq, Structural)]
pub struct ErasureCodingParams {
    /// Number of data shards.
    pub data_shards: usize,
    /// Number of parity shards for recovery.
    pub parity_shards: usize,
    /// Minimum shards needed for reconstruction.
    pub threshold: usize,
}

/// Terms of a storage contract.
#[derive(Debug, Clone)]
pub struct ContractTerms {
    /// Storage size in bytes.
    pub storage_size: u64,
    /// Storage duration in seconds.
    pub duration: u64,
    /// Storage tier.
    pub tier: StorageTier,
    /// Replication requirement.
    pub replication_factor: u8,
    /// Geographic restrictions.
    pub geographic_requirements: Vec<String>,
    /// Erasure coding parameters.
    pub erasure_coding: ErasureCodingParams,
    /// Storage provider nodes, by the lowercase hexadecimal text of their
    /// identifiers.
    pub provider_nodes: Vec<String>,
}

/// The content of a `ContractTerms`.
pub struct ContractTermsView {
    pub storage_size: u64,
    pub duration: u64,
    pub tier: StorageTier,
    pub replication_factor: u8,
    pub geographic_requirements: Seq<Seq<char>>,
    pub erasure_coding: ErasureCodingParams,
    pub provider_nodes: Seq<Seq<char>>,
}

impl View for ContractTerms {
    type V = ContractTermsView;

    open spec fn view(&self) -> ContractTermsView {
        ContractTermsView {
            storage_size: self.storage_size,
            duration: self.duration,
            tier: self.tier,
            replication_factor: self.replication_factor,
            geographic_requirements: self.geographic_requirements@.map_values(|g: String| g@),
            erasure_coding: self.erasure_coding,
            provider_nodes: self.provider_nodes@.map_values(|n: String| n@),
        }
    }
}

/// Payment status of a contract.
#[derive(Debug, Clone, Copy, PartialEq, Eq, Structural)]
pub enum PaymentStatus {
    /// Nothing paid yet.
    Pending,
    /// Paid in part.
    Partial,
    /// Paid in full.
    Completed,
}

/// Payment terms of a contract.
#[derive(Debug, Clone, Copy, PartialEq, Eq, Structural)]
pub struct PaymentTerms {
    /// Total contract value in tokens.
    pub total_amount: u64,
    /// Amount paid so far.
    pub paid_amount: u64,
    /// Payment status.
    pub status: PaymentStatus,
}

/// Performance metrics that earn bonuses.
#[derive(Debug, Clone, Copy, PartialEq, Eq, Hash, Structural)]
pub enum PerformanceMetric {
    ExceptionalUptime,
    LowLatency,
    HighThroughput,
    ZeroDataLoss,
    EarlyCompletion,
}

/// A payment milestone.
#[derive(Debug, Clone)]
pub struct PaymentMilestone {
    pub description: String,
    pub amount: u64,
    pub deadline: u64,
    pub completion_criteria: Vec<String>,
}

/// Statistics of the contracts of a manager.
#[derive(Debug, Clone, Copy, PartialEq, Eq, Structural)]
pub struct ContractStats {
    pub total_contracts: u64,
    pub total_storage_under_contract: u64,
    pub total_contract_value: u64,
    pub active_contracts: u64,
    pub expired_contracts: u64,
    pub breached_contracts: u64,
}

/// A storage contract between a client and a provider.
#[derive(Debug, Clone)]
pub struct StorageContract {
    /// Contract identifier.
    pub contract_id: String,
    /// Client identity.
    pub client_id: String,
    /// Provider identity.
    pub provider_id: String,
    /// Terms and conditions.
    pub terms: ContractTerms,
    /// Payment details.
    pub payment: PaymentTerms,
    /// Status.
    pub status: ContractStatus,
    /// Creation time (seconds since the Unix epoch).
    pub created_at: u64,
    /// Expiry time (seconds since the Unix epoch).
    pub expires_at: u64,
    /// Encoded signature of the client, once signed.
    pub client_signature: Option<Vec<u8>>,
    /// Encoded signature of the provider, once signed.
    pub provider_signature: Option<Vec<u8>>,
    /// Encoded signatures of network witnesses.
    pub witness_signatures: Vec<Vec<u8>>,
}

/// The view of an optional byte string.
pub open spec fn bytes_view(b: Option<Vec<u8>>) -> Option<Seq<u8>> {
    match b {
        Some(v) => Some(v@),
        None => None,
    }
}

/// The content of a `StorageContract`.
pub struct StorageContractView {
    pub contract_id: Seq<char>,
    pub client_id: Seq<char>,
    pub provider_id: Seq<char>,
    pub terms: ContractTermsView,
    pub payment: PaymentTerms,
    pub status: ContractStatus,
    pub created_at: u64,
    pub expires_at: u64,
    pub client_signature: Option<Seq<u8>>,
    pub provider_signature: Option<Seq<u8>>,
    pub witness_signatures: Seq<Seq<u8>>,
}

impl View for StorageContract {
    type V = StorageContractView;

    open spec fn view(&self) -> StorageContractView {
        StorageContractView {
            contract_id: self.contract_id@,
            client_id: self.client_id@,
            provider_id: self.provider_id@,
            terms: self.terms@,
            payment: self.payment,
            status: self.status,
            created_at: self.created_at,
            expires_at: self.expires_at,
            client_signature: bytes_view(self.client_signature),
            provider_signature: bytes_view(self.provider_signature),
            witness_signatures: self.witness_signatures@.map_values(|w: Vec<u8>| w@),
        }
    }
}

/// Performance monitoring of an active contract.
#[derive(Debug, Clone)]
pub struct PerformanceMonitor {
    /// Contract being monitored.
    pub contract_id: String,
    /// Monitoring start time.
    pub start_time: u64,
    /// Last check time.
    pub last_check: u64,
}

/// The content of a `PerformanceMonitor`.
pub struct PerformanceMonitorView {
    pub contract_id: Seq<char>,
    pub start_time: u64,
    pub last_check: u64,
}

impl View for PerformanceMonitor {
    type V = PerformanceMonitorView;

    open spec fn view(&self) -> PerformanceMonitorView {
        PerformanceMonitorView { contract_id: self.contract_id@, start_time: self.start_time, last_check: self.last_check }
    }
}

/// The identifier of a contract: "contract_" followed by `suffix`.
pub open spec fn contract_id_text(suffix: Seq<char>) -> Seq<char> {
    seq!['c', 'o', 'n', 't', 'r', 'a', 'c', 't', '_'] + suffix
}

/// Index of the contract with identifier `id`, if any.
pub open spec fn find_contract(s: Seq<StorageContractView>, id: Seq<char>) -> Option<int> {
    if exists|i: int| 0 <= i < s.len() && #[trigger] s[i].contract_id == id {
        Some(choose|i: int| 0 <= i < s.len() && #[trigger] s[i].contract_id == id)
    } else {
        None
    }
}

/// Index of the monitor of contract `id`, if any.
pub open spec fn find_monitor(s: Seq<PerformanceMonitorView>, id: Seq<char>) -> Option<int> {
    if exists|i: int| 0 <= i < s.len() && #[trigger] s[i].contract_id == id {
        Some(choose|i: int| 0 <= i < s.len() && #[trigger] s[i].contract_id == id)
    } else {
        None
    }
}

/// The contracts after putting `c`: it replaces the contract with its
/// identifier, or is appended.
pub open spec fn contracts_after_put(s: Seq<StorageContractView>, c: StorageContractView) -> Seq<StorageContractView> {
    match find_contract(s, c.contract_id) {
        Some(p) => s.update(p, c),
        None => s.push(c),
    }
}

/// The monitors after putting `m`: it replaces the monitor of its
/// contract, or is appended.
pub open spec fn monitors_after_put(s: Seq<PerformanceMonitorView>, m: PerformanceMonitorView) -> Seq<PerformanceMonitorView> {
    match find_monitor(s, m.contract_id) {
        Some(p) => s.update(p, m),
        None => s.push(m),
    }
}

/// A draft contract with identifier `id`, terms `terms` and payment terms
/// `payment`, created at `now` and expiring after the terms' duration, with
/// no signatures.
pub open spec fn draft_contract(id: Seq<char>, client: Seq<char>, provider: Seq<char>, terms: ContractTermsView,
    payment: PaymentTerms, now: u64) -> StorageContractView {
    StorageContractView {
        contract_id: id,
        client_id: client,
        provider_id: provider,
        terms,
        payment,
        status: ContractStatus::Draft,
        created_at: now,
        expires_at: (now + terms.duration) as u64,
        client_signature: None,
        provider_signature: None,
        witness_signatures: Seq::empty(),
    }
}

/// A contract with the signature of `signer` recorded: the client's or the
/// provider's slot is set, a witness signature is appended.
pub open spec fn with_signature(c: StorageContractView, signer: SignerType, signature: Seq<u8>) -> StorageContractView {
    match signer {
        SignerType::Client => StorageContractView { client_signature: Some(signature), ..c },
        SignerType::Provider => StorageContractView { provider_signature: Some(signature), ..c },
        SignerType::Witness => StorageContractView { witness_signatures: c.witness_signatures.push(signature), ..c },
    }
}

/// Whether both the client and the provider have signed.
pub open spec fn fully_signed(c: StorageContractView) -> bool {
    c.client_signature is Some && c.provider_signature is Some
}

/// The active contracts of `s`, in order.
pub open spec fn active_contracts(s: Seq<StorageContractView>) -> Seq<StorageContractView>
    decreases s.len(),
{
    if s.len() == 0 {
        s
    } else {
        let r = active_contracts(s.drop_last());
        if s.last().status == ContractStatus::Active { r.push(s.last()) } else { r }
    }
}

/// The contract `c` after a payment of `amount`: the paid amount grows by
/// `amount`; the payment is complete once it reaches the total, and partial
/// before.
pub open spec fn with_payment(c: StorageContractView, amount: u64) -> StorageContractView {
    let paid = (c.payment.paid_amount + amount) as u64;
    StorageContractView {
        payment: PaymentTerms {
            total_amount: c.payment.total_amount,
            paid_amount: paid,
            status: if paid >= c.payment.total_amount { PaymentStatus::Completed } else { PaymentStatus::Partial },
        },
        ..c
    }
}

/// The number of contracts of `s` whose provider nodes include `node`.
pub open spec fn contracts_with_provider(s: Seq<StorageContractView>, node: Seq<char>) -> nat
    decreases s.len(),
{
    if s.len() == 0 {
        0
    } else {
        contracts_with_provider(s.drop_last(), node) + if s.last().terms.provider_nodes.contains(node) { 1nat } else { 0nat }
    }
}

/// The storage sizes of the contracts of `s`, summed.
pub open spec fn storage_total(s: Seq<StorageContractView>) -> nat
    decreases s.len(),
{
    if s.len() == 0 {
        0
    } else {
        storage_total(s.drop_last()) + s.last().terms.storage_size as nat
    }
}

/// The total amounts of the contracts of `s`, summed.
pub open spec fn value_total(s: Seq<StorageContractView>) -> nat
    decreases s.len(),
{
    if s.len() == 0 {
        0
    } else {
        value_total(s.drop_last()) + s.last().payment.total_amount as nat
    }
}

/// The number of contracts of `s` that expire after `now`.
pub open spec fn unexpired_count(s: Seq<StorageContractView>, now: u64) -> nat
    decreases s.len(),
{
    if s.len() == 0 {
        0
    } else {
        unexpired_count(s.drop_last(), now) + if s.last().expires_at > now { 1nat } else { 0nat }
    }
}

/// The number of breached contracts of `s`.
pub open spec fn breached_count(s: Seq<StorageContractView>) -> nat
    decreases s.len(),
{
    if s.len() == 0 {
        0
    } else {
        breached_count(s.drop_last()) + if s.last().status == ContractStatus::Breached { 1nat } else { 0nat }
    }
}

/// The statistics of contracts `s` at time `now`: their number, summed
/// storage sizes and total amounts, how many expire after `now` (the active
/// ones) and how many do not (the expired ones), and how many are breached.
pub open spec fn contract_stats(s: Seq<StorageContractView>, now: u64) -> ContractStats {
    ContractStats {
        total_contracts: s.len() as u64,
        total_storage_under_contract: storage_total(s) as u64,
        total_contract_value: value_total(s) as u64,
        active_contracts: unexpired_count(s, now) as u64,
        expired_contracts: (s.len() - unexpired_count(s, now)) as u64,
        breached_contracts: breached_count(s) as u64,
    }
}

proof fn lemma_counts_bounded(s: Seq<StorageContractView>, now: u64, node: Seq<char>)
    ensures
        unexpired_count(s, now) <= s.len(),
        breached_count(s) <= s.len(),
        contracts_with_provider(s, node) <= s.len(),
    decreases s.len(),
{
    if s.len() > 0 {
        lemma_counts_bounded(s.drop_last(), now, node);
    }
}

proof fn lemma_totals_grow(s: Seq<StorageContractView>, i: int)
    requires
        0 <= i <= s.len(),
    ensures
        storage_total(s.take(i)) <= storage_total(s),
        value_total(s.take(i)) <= value_total(s),
    decreases s.len() - i,
{
    if i < s.len() {
        lemma_totals_grow(s, i + 1);
        assert(s.take(i + 1).drop_last() =~= s.take(i));
    } else {
        assert(s.take(i) =~= s);
    }
}

/// No two contracts share an identifier.
pub open spec fn contract_ids_unique(s: Seq<StorageContractView>) -> bool {
    forall|i: int, j: int| 0 <= i < s.len() && 0 <= j < s.len() && i != j
        ==> #[trigger] s[i].contract_id != #[trigger] s[j].contract_id
}

/// No two monitors watch the same contract.
pub open spec fn monitor_ids_unique(s: Seq<PerformanceMonitorView>) -> bool {
    forall|i: int, j: int| 0 <= i < s.len() && 0 <= j < s.len() && i != j
        ==> #[trigger] s[i].contract_id != #[trigger] s[j].contract_id
}

proof fn lemma_find_contract_at(s: Seq<StorageContractView>, id: Seq<char>, p: int)
    requires
        contract_ids_unique(s),
        0 <= p < s.len(),
        s[p].contract_id == id,
    ensures
        find_contract(s, id) == Some(p),
{
    let i = choose|i: int| 0 <= i < s.len() && #[trigger] s[i].contract_id == id;
    assert(s[i].contract_id == id);
    if i != p {
        assert(s[i].contract_id != s[p].contract_id);
    }
}

proof fn lemma_find_monitor_at(s: Seq<PerformanceMonitorView>, id: Seq<char>, p: int)
    requires
        monitor_ids_unique(s),
        0 <= p < s.len(),
        s[p].contract_id == id,
    ensures
        find_monitor(s, id) == Some(p),
{
    let i = choose|i: int| 0 <= i < s.len() && #[trigger] s[i].contract_id == id;
    assert(s[i].contract_id == id);
    if i != p {
        assert(s[i].contract_id != s[p].contract_id);
    }
}

/// A copy of a byte string.
fn copy_vec(v: &Vec<u8>) -> (r: Vec<u8>)
    ensures
        r@ == v@,
{
    let mut r: Vec<u8> = Vec::new();
    for i in 0..v.len()
        invariant
            r@ == v@.take(i as int),
    {
        r.push(v[i]);
        assert(v@.take(i + 1) =~= v@.take(i as int).push(v@[i as int]));
    }
    assert(v@.take(v@.len() as int) =~= v@);
    r
}

/// Whether `names` holds `name`.
fn contains_name(names: &Vec<String>, name: &String) -> (b: bool)
    ensures
        b == names@.map_values(|n: String| n@).contains(name@),
{
    let ghost v = names@.map_values(|n: String| n@);
    let mut i: usize = 0;
    while i < names.len()
        invariant
            i <= names@.len(),
            v == names@.map_values(|n: String| n@),
            forall|j: int| 0 <= j < i ==> v[j] != name@,
        decreases names@.len() - i,
    {
        if names[i] == *name {
            assert(v[i as int] == name@);
            return true;
        }
        i += 1;
    }
    false
}

/// Manager of storage contracts and of the monitors of active contracts.
#[derive(Debug)]
pub struct ContractManager {
    contracts: Vec<StorageContract>,
    monitors: Vec<PerformanceMonitor>,
}

impl ContractManager {
    /// Well-formedness: contract identifiers are distinct, and so are the
    /// contracts that monitors watch.
    pub closed spec fn wf(&self) -> bool {
        &&& contract_ids_unique(self.spec_contracts())
        &&& monitor_ids_unique(self.spec_monitors())
    }

    /// The contracts.
    pub closed spec fn spec_contracts(&self) -> Seq<StorageContractView> {
        self.contracts@.map_values(|c: StorageContract| c@)
    }

    /// The performance monitors.
    pub closed spec fn spec_monitors(&self) -> Seq<PerformanceMonitorView> {
        self.monitors@.map_values(|m: PerformanceMonitor| m@)
    }

    /// A manager with no contracts.
    pub fn new() -> (m: ContractManager)
        ensures
            m.wf(),
            m.spec_contracts().len() == 0,
            m.spec_monitors().len() == 0,
    {
        let m = ContractManager { contracts: Vec::new(), monitors: Vec::new() };
        assert(m.spec_contracts() =~= Seq::<StorageContractView>::empty());
        assert(m.spec_monitors() =~= Seq::<PerformanceMonitorView>::empty());
        m
    }

    /// Position of the contract with identifier `id`, if any.
    fn position_of(&self, id: &String) -> (r: Option<usize>)
        requires
            self.wf(),
        ensures
            match r {
                Some(p) => p < self.spec_contracts().len() && find_contract(self.spec_contracts(), id@) == Some(p as int),
                None => find_contract(self.spec_contracts(), id@) is None,
            },
    {
        let mut i: usize = 0;
        while i < self.contracts.len()
            invariant
                contract_ids_unique(self.spec_contracts()),
                i <= self.contracts@.len(),
                forall|j: int| 0 <= j < i ==> (#[trigger] self.contracts@[j]).contract_id@ != id@,
            decreases self.contracts@.len() - i,
        {
            if self.contracts[i].contract_id == *id {
                proof { lemma_find_contract_at(self.spec_contracts(), id@, i as int); }
                return Some(i);
            }
            i += 1;
        }
        assert forall|j: int| 0 <= j < self.spec_contracts().len() implies #[trigger] self.spec_contracts()[j].contract_id != id@ by {
            assert(self.spec_contracts()[j] == self.contracts@[j]@);
        }
        None
    }

    /// Position of the monitor of contract `id`, if any.
    fn monitor_position(&self, id: &String) -> (r: Option<usize>)
        requires
            self.wf(),
        ensures
            match r {
                Some(p) => p < self.spec_monitors().len() && find_monitor(self.spec_monitors(), id@) == Some(p as int),
                None => find_monitor(self.spec_monitors(), id@) is None,
            },
    {
        let mut i: usize = 0;
        while i < self.monitors.len()
            invariant
                monitor_ids_unique(self.spec_monitors()),
                i <= self.monitors@.len(),
                forall|j: int| 0 <= j < i ==> (#[trigger] self.monitors@[j]).contract_id@ != id@,
            decreases self.monitors@.len() - i,
        {
            if self.monitors[i].contract_id == *id {
                proof { lemma_find_monitor_at(self.spec_monitors(), id@, i as int); }
                return Some(i);
            }
            i += 1;
        }
        assert forall|j: int| 0 <= j < self.spec_monitors().len() implies #[trigger] self.spec_monitors()[j].contract_id != id@ by {
            assert(self.spec_monitors()[j] == self.monitors@[j]@);
        }
        None
    }

    /// Create a draft contract between `client_id` and `provider_id` with
    /// `terms` and `payment` at time `now`, lasting the terms' duration, with
    /// identifier "contract_" followed by `id_suffix`. A contract with that identifier is replaced;
    /// the others are unchanged. Fails, changing nothing, when the expiry
    /// time does not fit in 64 bits.
    pub fn create_contract_at(
        &mut self,
        client_id: String,
        provider_id: String,
        terms: ContractTerms,
        payment: PaymentTerms,
        id_suffix: String,
        now: u64,
    ) -> (r: Result<String, ContractError>)
        requires
            old(self).wf(),
        ensures
            final(self).wf(),
            final(self).spec_monitors() == old(self).spec_monitors(),
            now + terms.duration > u64::MAX ==> r == Err::<String, ContractError>(ContractError::ExpiryOverflow)
                && final(self).spec_contracts() == old(self).spec_contracts(),
            now + terms.duration <= u64::MAX ==> (r matches Ok(id) && id@ == contract_id_text(id_suffix@))
                && final(self).spec_contracts() == contracts_after_put(old(self).spec_contracts(),
                    draft_contract(contract_id_text(id_suffix@), client_id@, provider_id@, terms@, payment, now)),
    {
        let expires_at = match now.checked_add(terms.duration) {
            Some(t) => t,
            None => {
                return Err(ContractError::ExpiryOverflow);
            },
        };
        let mut contract_id = String::from_str("contract_");
        proof { reveal_strlit("contract_"); }
        contract_id.append(id_suffix.as_str());
        assert(contract_id@ =~= contract_id_text(id_suffix@));
        let ghost s = self.spec_contracts();
        let ghost c = draft_contract(contract_id@, client_id@, provider_id@, terms@, payment, now);
        let contract = StorageContract {
            contract_id: contract_id.clone(),
            client_id,
            provider_id,
            terms,
            payment,
            status: ContractStatus::Draft,
            created_at: now,
            expires_at,
            client_signature: None,
            provider_signature: None,
            witness_signatures: Vec::new(),
        };
        assert(contract@.witness_signatures =~= Seq::<Seq<u8>>::empty());
        assert(contract@ == c);
        match self.position_of(&contract_id) {
            Some(p) => {
                self.contracts.set(p, contract);
                assert(self.spec_contracts() =~= s.update(p as int, c));
                assert forall|i: int, j: int| 0 <= i < self.spec_contracts().len() && 0 <= j < self.spec_contracts().len() && i != j
                    implies #[trigger] self.spec_contracts()[i].contract_id != #[trigger] self.spec_contracts()[j].contract_id by {
                    assert(s[p as int].contract_id == c.contract_id);
                    if i != p && j != p {
                        assert(s[i].contract_id != s[j].contract_id);
                    } else if i == p {
                        assert(s[j].contract_id != s[p as int].contract_id);
                    } else {
                        assert(s[i].contract_id != s[p as int].contract_id);
                    }
                }
            },
            None => {
                self.contracts.push(contract);
                assert(self.spec_contracts() =~= s.push(c));
                assert forall|i: int, j: int| 0 <= i < self.spec_contracts().len() && 0 <= j < self.spec_contracts().len() && i != j
                    implies #[trigger] self.spec_contracts()[i].contract_id != #[trigger] self.spec_contracts()[j].contract_id by {
                    if i < s.len() && j < s.len() {
                        assert(s[i].contract_id != s[j].contract_id);
                    } else if i < s.len() {
                        assert(self.spec_contracts()[i] == s[i]);
                    } else {
                        assert(self.spec_contracts()[j] == s[j]);
                    }
                }
            },
        }
        Ok(contract_id)
    }

    /// Create a draft contract at the current time, with a random version-4
    /// UUID as identifier suffix (see `create_contract_at`). Fails, changing
    /// nothing, when the clock reads before the Unix epoch.
    pub fn create_contract(&mut self, client_id: String, provider_id: String, terms: ContractTerms, payment: PaymentTerms) -> (r: Result<String, ContractError>)
        requires
            old(self).wf(),
        ensures
            final(self).wf(),
            final(self).spec_monitors() == old(self).spec_monitors(),
            r is Err ==> final(self).spec_contracts() == old(self).spec_contracts()
                && (r == Err::<String, ContractError>(ContractError::ClockBeforeEpoch)
                    || r == Err::<String, ContractError>(ContractError::ExpiryOverflow)),
            r matches Ok(id) ==> exists|suffix: Seq<char>, now: u64| suffix.len() == 36
                && id@ == contract_id_text(suffix)
                && final(self).spec_contracts() == #[trigger] contracts_after_put(old(self).spec_contracts(),
                    draft_contract(contract_id_text(suffix), client_id@, provider_id@, terms@, payment, now)),
    {
        let now = match unix_time_secs() {
            Some(t) => t,
            None => {
                return Err(ContractError::ClockBeforeEpoch);
            },
        };
        let suffix = uuid_v4_text();
        self.create_contract_at(client_id, provider_id, terms, payment, suffix, now)
    }

    /// Record the signature of `signer` on contract `contract_id` at time
    /// `now`. Once both the client and the provider have signed, the
    /// contract is Active and a monitor started at `now` watches it;
    /// otherwise its status and the monitors are unchanged. An unknown
    /// contract is refused and nothing changes.
    pub fn sign_contract_at(&mut self, contract_id: &str, signer: SignerType, signature: Vec<u8>, now: u64) -> (r: Result<(), ContractError>)
        requires
            old(self).wf(),
        ensures
            final(self).wf(),
            match find_contract(old(self).spec_contracts(), contract_id@) {
                None => r == Err::<(), ContractError>(ContractError::NotFound)
                    && final(self).spec_contracts() == old(self).spec_contracts()
                    && final(self).spec_monitors() == old(self).spec_monitors(),
                Some(p) => {
                    let signed = with_signature(old(self).spec_contracts()[p], signer, signature@);
                    &&& r is Ok
                    &&& fully_signed(signed) ==> final(self).spec_contracts()
                            == old(self).spec_contracts().update(p, StorageContractView { status: ContractStatus::Active, ..signed })
                        && final(self).spec_monitors() == monitors_after_put(old(self).spec_monitors(),
                            PerformanceMonitorView { contract_id: contract_id@, start_time: now, last_check: 0 })
                    &&& !fully_signed(signed) ==> final(self).spec_contracts() == old(self).spec_contracts().update(p, signed)
                        && final(self).spec_monitors() == old(self).spec_monitors()
                },
            },
    {
        let id = contract_id.to_owned();
        let ghost s = self.spec_contracts();
        let p = match self.position_of(&id) {
            Some(p) => p,
            None => {
                return Err(ContractError::NotFound);
            },
        };
        let ghost sig = signature@;
        let ghost signed = with_signature(s[p as int], signer, sig);
        let mut c = self.contracts.remove(p);
        assert(self.spec_contracts() =~= s.remove(p as int));
        match signer {
            SignerType::Client => {
                c.client_signature = Some(signature);
            },
            SignerType::Provider => {
                c.provider_signature = Some(signature);
            },
            SignerType::Witness => {
                let ghost before = c.witness_signatures@;
                c.witness_signatures.push(signature);
                assert(c.witness_signatures@.map_values(|w: Vec<u8>| w@)
                    =~= before.map_values(|w: Vec<u8>| w@).push(sig));
            },
        }
        assert(c@ == signed);
        let both = c.client_signature.is_some() && c.provider_signature.is_some();
        if both {
            c.status = ContractStatus::Active;
        }
        let ghost nc = c@;
        self.contracts.insert(p, c);
        assert(self.spec_contracts() =~= s.update(p as int, nc));
        assert forall|i: int, j: int| 0 <= i < self.spec_contracts().len() && 0 <= j < self.spec_contracts().len() && i != j
            implies #[trigger] self.spec_contracts()[i].contract_id != #[trigger] self.spec_contracts()[j].contract_id by {
            assert(s[i].contract_id != s[j].contract_id);
        }
        if both {
            let monitor = PerformanceMonitor { contract_id: id.clone(), start_time: now, last_check: 0 };
            let ghost mv = monitor@;
            let ghost ms = self.spec_monitors();
            let found = self.monitor_position(&id);
            match found {
                Some(q) => {
                    assert(ms[q as int].contract_id == id@) by {
                        let c = choose|c: int| 0 <= c < ms.len() && #[trigger] ms[c].contract_id == id@;
                    }
                    self.monitors.set(q, monitor);
                    assert(self.spec_monitors() =~= ms.update(q as int, mv));
                    assert forall|a: int, b: int| 0 <= a < self.spec_monitors().len() && 0 <= b < self.spec_monitors().len() && a != b
                        implies #[trigger] self.spec_monitors()[a].contract_id != #[trigger] self.spec_monitors()[b].contract_id by {
                        if a != q && b != q {
                            assert(ms[a].contract_id != ms[b].contract_id);
                        } else if a == q {
                            assert(ms[b].contract_id != ms[q as int].contract_id);
                        } else {
                            assert(ms[a].contract_id != ms[q as int].contract_id);
                        }
                    }
                },
                None => {
                    self.monitors.push(monitor);
                    assert(self.spec_monitors() =~= ms.push(mv));
                    assert forall|a: int, b: int| 0 <= a < self.spec_monitors().len() && 0 <= b < self.spec_monitors().len() && a != b
                        implies #[trigger] self.spec_monitors()[a].contract_id != #[trigger] self.spec_monitors()[b].contract_id by {
                        if a < ms.len() && b < ms.len() {
                            assert(ms[a].contract_id != ms[b].contract_id);
                        } else if a < ms.len() {
                            assert(self.spec_monitors()[a] == ms[a]);
                        } else {
                            assert(self.spec_monitors()[b] == ms[b]);
                        }
                    }
                },
            }
        }
        Ok(())
    }

    /// Record the signature of `signer` at the current time (see
    /// `sign_contract_at`). An unknown contract is refused, and a signature
    /// that leaves the contract short of both parties' signatures is
    /// recorded, whatever the clock reads. Only the signature that activates
    /// the contract reads the clock, for the start of its monitor; that one
    /// fails, changing nothing, when the clock reads before the Unix epoch.
    pub fn sign_contract(&mut self, contract_id: &str, signer: SignerType, signature: Vec<u8>) -> (r: Result<(), ContractError>)
        requires
            old(self).wf(),
        ensures
            final(self).wf(),
            match find_contract(old(self).spec_contracts(), contract_id@) {
                None => r == Err::<(), ContractError>(ContractError::NotFound)
                    && final(self).spec_contracts() == old(self).spec_contracts()
                    && final(self).spec_monitors() == old(self).spec_monitors(),
                Some(p) => {
                    let signed = with_signature(old(self).spec_contracts()[p], signer, signature@);
                    &&& !fully_signed(signed) ==> r is Ok
                        && final(self).spec_contracts() == old(self).spec_contracts().update(p, signed)
                        && final(self).spec_monitors() == old(self).spec_monitors()
                    &&& fully_signed(signed) ==> (r == Err::<(), ContractError>(ContractError::ClockBeforeEpoch)
                            && final(self).spec_contracts() == old(self).spec_contracts()
                            && final(self).spec_monitors() == old(self).spec_monitors())
                        || (r is Ok && final(self).spec_contracts()
                                == old(self).spec_contracts().update(p, StorageContractView { status: ContractStatus::Active, ..signed })
                            && exists|now: u64| final(self).spec_monitors() == #[trigger] monitors_after_put(old(self).spec_monitors(),
                                PerformanceMonitorView { contract_id: contract_id@, start_time: now, last_check: 0 }))
                },
            },
    {
        let id = contract_id.to_owned();
        let p = match self.position_of(&id) {
            Some(p) => p,
            None => {
                return Err(ContractError::NotFound);
            },
        };
        let completes = match signer {
            SignerType::Client => self.contracts[p].provider_signature.is_some(),
            SignerType::Provider => self.contracts[p].client_signature.is_some(),
            SignerType::Witness => self.contracts[p].client_signature.is_some()
                && self.contracts[p].provider_signature.is_some(),
        };
        assert(completes == fully_signed(with_signature(self.spec_contracts()[p as int], signer, signature@)));
        if !completes {
            return self.sign_contract_at(contract_id, signer, signature, 0);
        }
        match unix_time_secs() {
            Some(now) => self.sign_contract_at(contract_id, signer, signature, now),
            None => Err(ContractError::ClockBeforeEpoch),
        }
    }

    /// Whether a performance update of contract `contract_id` may proceed:
    /// refused when no monitor watches the contract, then when no contract
    /// has the identifier.
    pub fn check_performance_update(&self, contract_id: &str) -> (r: Result<(), ContractError>)
        requires
            self.wf(),
        ensures
            find_monitor(self.spec_monitors(), contract_id@) is None
                ==> r == Err::<(), ContractError>(ContractError::MonitorNotFound),
            find_monitor(self.spec_monitors(), contract_id@) is Some && find_contract(self.spec_contracts(), contract_id@) is None
                ==> r == Err::<(), ContractError>(ContractError::NotFound),
            find_monitor(self.spec_monitors(), contract_id@) is Some && find_contract(self.spec_contracts(), contract_id@) is Some
                ==> r is Ok,
    {
        let id = contract_id.to_owned();
        if self.monitor_position(&id).is_none() {
            return Err(ContractError::MonitorNotFound);
        }
        if self.position_of(&id).is_none() {
            return Err(ContractError::NotFound);
        }
        Ok(())
    }

    /// Record a payment of `payment_amount` on the contract whose
    /// identifier is the lowercase hexadecimal text of `contract_id` (see
    /// `with_payment`). An unknown contract is refused and nothing changes.
    pub fn update_payment_status(&mut self, contract_id: &Hash256, payment_amount: u64) -> (r: Result<(), ContractError>)
        requires
            old(self).wf(),
            forall|i: int| 0 <= i < old(self).spec_contracts().len()
                && (#[trigger] old(self).spec_contracts()[i]).contract_id == hex_lower(contract_id@)
                ==> old(self).spec_contracts()[i].payment.paid_amount + payment_amount <= u64::MAX,
        ensures
            final(self).wf(),
            final(self).spec_monitors() == old(self).spec_monitors(),
            match find_contract(old(self).spec_contracts(), hex_lower(contract_id@)) {
                None => r == Err::<(), ContractError>(ContractError::NotFound)
                    && final(self).spec_contracts() == old(self).spec_contracts(),
                Some(p) => r is Ok && final(self).spec_contracts()
                    == old(self).spec_contracts().update(p, with_payment(old(self).spec_contracts()[p], payment_amount)),
            },
    {
        let id = hex_encode(contract_id.as_bytes());
        let ghost s = self.spec_contracts();
        let p = match self.position_of(&id) {
            Some(p) => p,
            None => {
                return Err(ContractError::NotFound);
            },
        };
        let mut c = self.contracts.remove(p);
        assert(self.spec_contracts() =~= s.remove(p as int));
        assert(c@ == s[p as int]);
        let paid = c.payment.paid_amount + payment_amount;
        c.payment.paid_amount = paid;
        c.payment.status = if paid >= c.payment.total_amount { PaymentStatus::Completed } else { PaymentStatus::Partial };
        let ghost nc = c@;
        assert(nc == with_payment(s[p as int], payment_amount));
        self.contracts.insert(p, c);
        assert(self.spec_contracts() =~= s.update(p as int, nc));
        assert forall|i: int, j: int| 0 <= i < self.spec_contracts().len() && 0 <= j < self.spec_contracts().len() && i != j
            implies #[trigger] self.spec_contracts()[i].contract_id != #[trigger] self.spec_contracts()[j].contract_id by {
            assert(s[i].contract_id != s[j].contract_id);
        }
        Ok(())
    }

    /// The number of contracts whose provider nodes include the node with
    /// identifier `node_id`, named by the lowercase hexadecimal text of the
    /// identifier.
    pub fn get_node_contract_count(&self, node_id: &Hash256) -> (n: u64)
        requires
            self.wf(),
        ensures
            n == contracts_with_provider(self.spec_contracts(), hex_lower(node_id@)),
    {
        let name = hex_encode(node_id.as_bytes());
        let ghost s = self.spec_contracts();
        let mut n: u64 = 0;
        for i in 0..self.contracts.len()
            invariant
                s == self.spec_contracts(),
                s.len() == self.contracts@.len(),
                n == contracts_with_provider(s.take(i as int), name@),
        {
            assert(s.take(i + 1).drop_last() =~= s.take(i as int));
            assert(s[i as int] == self.contracts@[i as int]@);
            proof { lemma_counts_bounded(s.take(i as int), 0, name@); }
            if contains_name(&self.contracts[i].terms.provider_nodes, &name) {
                n = n + 1;
            }
        }
        assert(s.take(s.len() as int) =~= s);
        n
    }

    /// The statistics of the contracts at time `now` (see `contract_stats`).
    pub fn get_statistics_at(&self, now: u64) -> (st: ContractStats)
        requires
            self.wf(),
            storage_total(self.spec_contracts()) <= u64::MAX,
            value_total(self.spec_contracts()) <= u64::MAX,
        ensures
            st == contract_stats(self.spec_contracts(), now),
    {
        let ghost s = self.spec_contracts();
        let mut storage: u64 = 0;
        let mut value: u64 = 0;
        let mut active: u64 = 0;
        let mut breached: u64 = 0;
        for i in 0..self.contracts.len()
            invariant
                s == self.spec_contracts(),
                s.len() == self.contracts@.len(),
                storage_total(s) <= u64::MAX,
                value_total(s) <= u64::MAX,
                storage == storage_total(s.take(i as int)),
                value == value_total(s.take(i as int)),
                active == unexpired_count(s.take(i as int), now),
                breached == breached_count(s.take(i as int)),
        {
            assert(s.take(i + 1).drop_last() =~= s.take(i as int));
            assert(s[i as int] == self.contracts@[i as int]@);
            proof {
                lemma_counts_bounded(s.take(i as int), now, Seq::empty());
                lemma_totals_grow(s, i + 1);
            }
            storage = storage + self.contracts[i].terms.storage_size;
            value = value + self.contracts[i].payment.total_amount;
            if self.contracts[i].expires_at > now {
                active = active + 1;
            }
            if self.contracts[i].status == ContractStatus::Breached {
                breached = breached + 1;
            }
        }
        assert(s.take(s.len() as int) =~= s);
        proof { lemma_counts_bounded(s, now, Seq::empty()); }
        let total = self.contracts.len() as u64;
        ContractStats {
            total_contracts: total,
            total_storage_under_contract: storage,
            total_contract_value: value,
            active_contracts: active,
            expired_contracts: total - active,
            breached_contracts: breached,
        }
    }

    /// The statistics of the contracts at the current time (see
    /// `get_statistics_at`). Fails when the clock reads before the Unix
    /// epoch.
    pub fn get_statistics(&self) -> (r: Result<ContractStats, ContractError>)
        requires
            self.wf(),
            storage_total(self.spec_contracts()) <= u64::MAX,
            value_total(self.spec_contracts()) <= u64::MAX,
        ensures
            r is Err ==> r == Err::<ContractStats, ContractError>(ContractError::ClockBeforeEpoch),
            r matches Ok(st) ==> exists|now: u64| st == #[trigger] contract_stats(self.spec_contracts(), now),
    {
        match unix_time_secs() {
            Some(now) => Ok(self.get_statistics_at(now)),
            None => Err(ContractError::ClockBeforeEpoch),
        }
    }

    /// The contract with identifier `contract_id`, if any.
    pub fn get_contract(&self, contract_id: &str) -> (r: Option<&StorageContract>)
        requires
            self.wf(),
        ensures
            match find_contract(self.spec_contracts(), contract_id@) {
                None => r is None,
                Some(p) => r matches Some(c) && c@ == self.spec_contracts()[p],
            },
    {
        let id = contract_id.to_owned();
        match self.position_of(&id) {
            Some(p) => Some(&self.contracts[p]),
            None => None,
        }
    }

    /// Whether a monitor watches contract `contract_id`.
    pub fn is_monitored(&self, contract_id: &str) -> (b: bool)
        requires
            self.wf(),
        ensures
            b == (find_monitor(self.spec_monitors(), contract_id@) is Some),
    {
        let id = contract_id.to_owned();
        self.monitor_position(&id).is_some()
    }

    /// The active contracts, in order.
    pub fn list_active_contracts(&self) -> (r: Vec<&StorageContract>)
        requires
            self.wf(),
        ensures
            r@.map_values(|c: &StorageContract| c@) == active_contracts(self.spec_contracts()),
    {
        let ghost s = self.spec_contracts();
        let mut r: Vec<&StorageContract> = Vec::new();
        for i in 0..self.contracts.len()
            invariant
                s == self.spec_contracts(),
                r@.map_values(|c: &StorageContract| c@) == active_contracts(s.take(i as int)),
        {
            assert(s.take(i + 1).drop_last() =~= s.take(i as int));
            assert(s[i as int] == self.contracts@[i as int]@);
            if self.contracts[i].status == ContractStatus::Active {
                let ghost before = r@;
                r.push(&self.contracts[i]);
                assert(r@.map_values(|c: &StorageContract| c@) =~= before.map_values(|c: &StorageContract| c@).push(s[i as int]));
            }
        }
        assert(s.take(s.len() as int) =~= s);
        r
    }
}

/// A contract becomes active exactly when both parties have signed it: the
/// client's and the provider's signatures, recorded in either order, make a
/// draft fully signed, and a witness signature alone does not.
pub proof fn lemma_signing_activates(c: StorageContractView, client_sig: Seq<u8>, provider_sig: Seq<u8>, witness_sig: Seq<u8>)
    requires
        c.client_signature is None,
        c.provider_signature is None,
    ensures
        fully_signed(with_signature(with_signature(c, SignerType::Client, client_sig), SignerType::Provider, provider_sig)),
        fully_signed(with_signature(with_signature(c, SignerType::Provider, provider_sig), SignerType::Client, client_sig)),
        !fully_signed(with_signature(c, SignerType::Client, client_sig)),
        !fully_signed(with_signature(c, SignerType::Provider, provider_sig)),
        !fully_signed(with_signature(c, SignerType::Witness, witness_sig)),
{
}

/// The statistics at time `now` split the contracts into those that expire
/// after `now` (active) and the others (expired): the two counts add up to
/// the number of contracts; when every contract expires after `now` all are
/// active, when none does none is; and a later time never has more active
/// contracts. The time compared is the one given, unchanged.
pub proof fn lemma_statistics_split(s: Seq<StorageContractView>, now: u64, later: u64)
    requires
        s.len() <= u64::MAX,
        now <= later,
    ensures
        contract_stats(s, now).active_contracts + contract_stats(s, now).expired_contracts == s.len(),
        (forall|i: int| 0 <= i < s.len() ==> (#[trigger] s[i]).expires_at > now)
            ==> contract_stats(s, now).active_contracts == s.len(),
        (forall|i: int| 0 <= i < s.len() ==> (#[trigger] s[i]).expires_at <= now)
            ==> contract_stats(s, now).active_contracts == 0,
        contract_stats(s, later).active_contracts <= contract_stats(s, now).active_contracts,
    decreases s.len(),
{
    lemma_counts_bounded(s, now, Seq::empty());
    lemma_counts_bounded(s, later, Seq::empty());
    lemma_unexpired_count_facts(s, now, later);
}

proof fn lemma_unexpired_count_facts(s: Seq<StorageContractView>, now: u64, later: u64)
    requires
        now <= later,
    ensures
        (forall|i: int| 0 <= i < s.len() ==> (#[trigger] s[i]).expires_at > now) ==> unexpired_count(s, now) == s.len(),
        (forall|i: int| 0 <= i < s.len() ==> (#[trigger] s[i]).expires_at <= now) ==> unexpired_count(s, now) == 0,
        unexpired_count(s, later) <= unexpired_count(s, now),
    decreases s.len(),
{
    if s.len() > 0 {
        let s0 = s.drop_last();
        lemma_unexpired_count_facts(s0, now, later);
        if forall|i: int| 0 <= i < s.len() ==> (#[trigger] s[i]).expires_at > now {
            assert forall|i: int| 0 <= i < s0.len() implies (#[trigger] s0[i]).expires_at > now by {
                assert(s0[i] == s[i]);
            }
            assert(s.last() == s[s.len() - 1]);
        }
        if forall|i: int| 0 <= i < s.len() ==> (#[trigger] s[i]).expires_at <= now {
            assert forall|i: int| 0 <= i < s0.len() implies (#[trigger] s0[i]).expires_at <= now by {
                assert(s0[i] == s[i]);
            }
            assert(s.last() == s[s.len() - 1]);
        }
    }
}

/// A contract created at time `now` for a duration `d` that fits in 64
/// bits is a draft created at `now` that expires `d` seconds later, hence
/// not before it was created, with no signatures, and with the given
/// parties, terms and payment terms.
pub proof fn lemma_draft_times(id: Seq<char>, client: Seq<char>, provider: Seq<char>, terms: ContractTermsView,
    payment: PaymentTerms, now: u64)
    requires
        now + terms.duration <= u64::MAX,
    ensures
        draft_contract(id, client, provider, terms, payment, now).created_at == now,
        draft_contract(id, client, provider, terms, payment, now).expires_at == now + terms.duration,
        draft_contract(id, client, provider, terms, payment, now).expires_at
            >= draft_contract(id, client, provider, terms, payment, now).created_at,
        draft_contract(id, client, provider, terms, payment, now).status == ContractStatus::Draft,
        !fully_signed(draft_contract(id, client, provider, terms, payment, now)),
        draft_contract(id, client, provider, terms, payment, now).contract_id == id,
        draft_contract(id, client, provider, terms, payment, now).client_id == client,
        draft_contract(id, client, provider, terms, payment, now).provider_id == provider,
        draft_contract(id, client, provider, terms, payment, now).terms == terms,
        draft_contract(id, client, provider, terms, payment, now).payment == payment,
{
}

} // verus!
