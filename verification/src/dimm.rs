//! Memory modules: what the error counters know of them and what the firmware
//! tables know, brought together.

use crate::edac::{self, ControllerDir, DimmEdac, EdacSnapshot};
use crate::text::{self, contains_text, copy_optional, decimal_string, same_text};
use vstd::prelude::*;
use vstd::string::StringExecFns;

verus! {

/// A memory module as the firmware tables describe it.
#[derive(Debug)]
pub struct DimmInfo {
    pub handle: u16,
    /// The printed name of the slot.
    pub device_locator: String,
    /// The bank or channel of the slot.
    pub bank_locator: String,
    pub manufacturer: Option<String>,
    pub serial_number: Option<String>,
    pub part_number: Option<String>,
    pub size_mb: u64,
    /// The kind of memory, such as `DDR5`.
    pub memory_type: String,
    pub speed_mhz: u64,
}

impl Clone for DimmInfo {
    fn clone(&self) -> (copy: Self)
        ensures
            copy == *self,
    {
        DimmInfo {
            handle: self.handle,
            device_locator: self.device_locator.clone(),
            bank_locator: self.bank_locator.clone(),
            manufacturer: copy_optional(&self.manufacturer),
            serial_number: copy_optional(&self.serial_number),
            part_number: copy_optional(&self.part_number),
            size_mb: self.size_mb,
            memory_type: self.memory_type.clone(),
            speed_mhz: self.speed_mhz,
        }
    }
}

/// A memory module, as far as it is known from either side.
#[derive(Debug)]
pub struct DimmEntry {
    pub edac: Option<DimmEdac>,
    pub smbios: Option<DimmInfo>,
}

/// The memory modules of the machine.
#[derive(Debug)]
pub struct DimmTopology {
    pub dimms: Vec<DimmEntry>,
}

/// The lower-case form of a text, as `str::to_lowercase` of std has it.
pub uninterp spec fn lowercase(s: Seq<char>) -> Seq<char>;

/// `str::to_lowercase` of std: the lower-case form of the text by the rules of
/// Unicode, which depends on the text alone. What the form is goes unsaid.
#[verifier::external_body]
fn to_lowercase(s: &str) -> (lower: String)
    ensures
        lower@ == lowercase(s@),
{
    s.to_lowercase()
}

/// The first free slot from `from` on whose printed name is `label`.
pub open spec fn slot_named(
    label: Seq<char>,
    smbios: Seq<DimmInfo>,
    used: Seq<bool>,
    from: int,
) -> Option<int>
    decreases smbios.len() - from,
{
    if from >= smbios.len() {
        None
    } else if !used[from] && smbios[from].device_locator@ == label {
        Some(from)
    } else {
        slot_named(label, smbios, used, from + 1)
    }
}

/// The first free slot from `from` on whose bank holds the location or is held by
/// it. A bank without a name fits nothing.
pub open spec fn slot_located(
    location: Seq<char>,
    banks: Seq<Seq<char>>,
    used: Seq<bool>,
    from: int,
) -> Option<int>
    decreases banks.len() - from,
{
    if from >= banks.len() {
        None
    } else if !used[from] && banks[from].len() > 0 && (text::holds_text(banks[from], location)
        || text::holds_text(location, banks[from])) {
        Some(from)
    } else {
        slot_located(location, banks, used, from + 1)
    }
}

/// The banks of the slots, in lower case.
pub open spec fn lower_banks(smbios: Seq<DimmInfo>) -> Seq<Seq<char>> {
    Seq::new(smbios.len(), |i: int| lowercase(smbios[i].bank_locator@))
}

/// The free slot that a module with counters sits in: the one that carries its
/// label, or else one whose bank fits its location.
pub open spec fn slot_of(edac: DimmEdac, smbios: Seq<DimmInfo>, used: Seq<bool>) -> Option<int> {
    let by_label = match edac.label {
        Some(label) => slot_named(label@, smbios, used, 0),
        None => None,
    };
    match by_label {
        Some(i) => Some(i),
        None => match edac.location {
            Some(location) => slot_located(lowercase(location@), lower_banks(smbios), used, 0),
            None => None,
        },
    }
}

/// A slot that was found is free.
proof fn lemma_slot_is_free(edac: DimmEdac, smbios: Seq<DimmInfo>, used: Seq<bool>)
    ensures
        slot_of(edac, smbios, used) matches Some(i) ==> 0 <= i < smbios.len() && !used[i],
{
    if let Some(label) = edac.label {
        lemma_slot_named(label@, smbios, used, 0);
    }
    if let Some(location) = edac.location {
        lemma_slot_located(lowercase(location@), lower_banks(smbios), used, 0);
    }
}

proof fn lemma_slot_named(label: Seq<char>, smbios: Seq<DimmInfo>, used: Seq<bool>, from: int)
    requires
        0 <= from,
    ensures
        slot_named(label, smbios, used, from) matches Some(i) ==> from <= i < smbios.len()
            && !used[i] && smbios[i].device_locator@ == label,
    decreases smbios.len() - from,
{
    if from < smbios.len() {
        lemma_slot_named(label, smbios, used, from + 1);
    }
}

proof fn lemma_slot_located(
    location: Seq<char>,
    banks: Seq<Seq<char>>,
    used: Seq<bool>,
    from: int,
)
    requires
        0 <= from,
    ensures
        slot_located(location, banks, used, from) matches Some(i) ==> from <= i < banks.len()
            && !used[i],
    decreases banks.len() - from,
{
    if from < banks.len() {
        lemma_slot_located(location, banks, used, from + 1);
    }
}

/// The first free slot whose bank holds the location or is held by it, given both
/// in lower case.
pub fn match_by_location(location: &str, banks: &[String], used: &[bool]) -> (slot: Option<usize>)
    requires
        used@.len() == banks@.len(),
    ensures
        match slot {
            Some(i) => slot_located(location@, text::string_texts(banks@), used@, 0) == Some(
                i as int,
            ),
            None => slot_located(location@, text::string_texts(banks@), used@, 0) is None,
        },
{
    let ghost all = text::string_texts(banks@);
    let mut i: usize = 0;
    while i < banks.len()
        invariant
            i <= banks@.len(),
            used@.len() == banks@.len(),
            all == text::string_texts(banks@),
            slot_located(location@, all, used@, i as int) == slot_located(location@, all, used@, 0),
        decreases banks@.len() - i,
    {
        if !used[i] {
            let bank = &banks[i];
            assert(all[i as int] == bank@);
            let named = !same_text(bank, "");
            proof {
                reveal_strlit("");
                assert(bank@.len() == 0 <==> bank@ =~= ""@);
            }
            if named && (contains_text(bank, location) || contains_text(location, bank)) {
                return Some(i);
            }
        }
        i = i + 1;
    }
    None
}

/// Find the free slot that a module with counters sits in: the first that carries
/// its label, or else the first whose bank fits its location, whatever the case
/// of the letters.
pub fn find_smbios_match(edac: &DimmEdac, smbios: &[DimmInfo], used: &[bool]) -> (slot: Option<
    usize,
>)
    requires
        used@.len() == smbios@.len(),
    ensures
        match slot {
            Some(i) => slot_of(*edac, smbios@, used@) == Some(i as int),
            None => slot_of(*edac, smbios@, used@) is None,
        },
{
    if let Some(label) = &edac.label {
        let mut i: usize = 0;
        while i < smbios.len()
            invariant
                i <= smbios@.len(),
                used@.len() == smbios@.len(),
                edac.label == Some(*label),
                slot_named(label@, smbios@, used@, i as int) == slot_named(
                    label@,
                    smbios@,
                    used@,
                    0,
                ),
            decreases smbios@.len() - i,
        {
            if !used[i] && same_text(&smbios[i].device_locator, label) {
                return Some(i);
            }
            i = i + 1;
        }
    }
    if let Some(location) = &edac.location {
        let lower = to_lowercase(location);
        let mut banks: Vec<String> = Vec::new();
        let mut i: usize = 0;
        while i < smbios.len()
            invariant
                i <= smbios@.len(),
                banks@.len() == i,
                forall|k: int|
                    0 <= k < i ==> (#[trigger] banks@[k])@ == lowercase(smbios@[k].bank_locator@),
            decreases smbios@.len() - i,
        {
            banks.push(to_lowercase(&smbios[i].bank_locator));
            i = i + 1;
        }
        assert(text::string_texts(banks@) =~= lower_banks(smbios@));
        return match_by_location(&lower, &banks, used);
    }
    None
}

/// Which slots are taken after the first `n` modules with counters were placed.
pub open spec fn taken(edac: Seq<DimmEdac>, smbios: Seq<DimmInfo>, n: int) -> Seq<bool>
    decreases n,
{
    if n <= 0 {
        Seq::new(smbios.len(), |i: int| false)
    } else {
        let before = taken(edac, smbios, n - 1);
        match slot_of(edac[n - 1], smbios, before) {
            Some(i) => before.update(i, true),
            None => before,
        }
    }
}

/// The slot that module `k` with counters is placed in, if any.
pub open spec fn placed(edac: Seq<DimmEdac>, smbios: Seq<DimmInfo>, k: int) -> Option<int> {
    slot_of(edac[k], smbios, taken(edac, smbios, k))
}

/// The entry of module `k` with counters.
pub open spec fn placed_entry(edac: Seq<DimmEdac>, smbios: Seq<DimmInfo>, k: int) -> DimmEntry {
    DimmEntry {
        edac: Some(edac[k]),
        smbios: match placed(edac, smbios, k) {
            Some(i) => Some(smbios[i]),
            None => None,
        },
    }
}

/// The entries of the first `n` slots that are not taken.
pub open spec fn free_entries(smbios: Seq<DimmInfo>, used: Seq<bool>, n: int) -> Seq<DimmEntry>
    decreases n,
{
    if n <= 0 {
        Seq::empty()
    } else {
        let rest = free_entries(smbios, used, n - 1);
        if used[n - 1] {
            rest
        } else {
            rest.push(DimmEntry { edac: None, smbios: Some(smbios[n - 1]) })
        }
    }
}

/// All modules: those with counters, each with its slot if it has one, then the
/// slots that are left.
pub open spec fn merged(edac: Seq<DimmEdac>, smbios: Seq<DimmInfo>) -> Seq<DimmEntry> {
    Seq::new(edac.len(), |k: int| placed_entry(edac, smbios, k)) + free_entries(
        smbios,
        taken(edac, smbios, edac.len() as int),
        smbios.len() as int,
    )
}

/// The modules with counters, if these were read.
pub open spec fn known_counters(edac: Option<EdacSnapshot>) -> Seq<DimmEdac> {
    match edac {
        Some(snapshot) => snapshot.dimms@,
        None => Seq::empty(),
    }
}

/// The slots, if the firmware tables were read.
pub open spec fn known_slots(smbios: Option<Vec<DimmInfo>>) -> Seq<DimmInfo> {
    match smbios {
        Some(slots) => slots@,
        None => Seq::empty(),
    }
}

impl DimmTopology {
    /// The modules of the machine, given the directories of the error counters and
    /// what the firmware tables say, as far as these could be read. `None` if
    /// nothing is known.
    #[must_use]
    pub fn build(controllers: Option<Vec<ControllerDir>>, smbios_dimms: Option<Vec<DimmInfo>>) -> (
        topology: Option<Self>)
        ensures
            exists|counters: Seq<DimmEdac>|
                {
                    &&& edac::captured(controllers) == (if counters.len() == 0 {
                        None
                    } else {
                        Some(edac::dimm_views(counters))
                    })
                    &&& topology is None <==> #[trigger] merged(
                        counters,
                        known_slots(smbios_dimms),
                    ).len() == 0
                    &&& topology matches Some(t) ==> t.dimms@ == merged(
                        counters,
                        known_slots(smbios_dimms),
                    )
                },
    {
        let snapshot = EdacSnapshot::capture(controllers);
        let ghost counters = known_counters(snapshot);
        proof {
            if snapshot is Some {
                assert(edac::dimm_views(counters).len() == counters.len());
            }
        }
        Self::merge(snapshot, smbios_dimms)
    }

    /// Bring together what is known from either side. `None` if nothing is.
    #[must_use]
    pub fn merge(edac: Option<EdacSnapshot>, smbios_dimms: Option<Vec<DimmInfo>>) -> (topology:
        Option<Self>)
        ensures
            topology is None <==> merged(known_counters(edac), known_slots(smbios_dimms)).len()
                == 0,
            topology matches Some(t) ==> t.dimms@ == merged(
                known_counters(edac),
                known_slots(smbios_dimms),
            ),
    {
        let counters = match edac {
            Some(snapshot) => snapshot.dimms,
            None => Vec::new(),
        };
        let slots = match smbios_dimms {
            Some(slots) => slots,
            None => Vec::new(),
        };
        let mut used: Vec<bool> = Vec::new();
        let mut s: usize = 0;
        while s < slots.len()
            invariant
                s <= slots@.len(),
                used@.len() == s,
                forall|i: int| 0 <= i < s ==> !#[trigger] used@[i],
            decreases slots@.len() - s,
        {
            used.push(false);
            s = s + 1;
        }
        assert(used@ =~= taken(counters@, slots@, 0));
        let mut entries: Vec<DimmEntry> = Vec::new();
        let mut k: usize = 0;
        while k < counters.len()
            invariant
                k <= counters@.len(),
                used@.len() == slots@.len(),
                used@ == taken(counters@, slots@, k as int),
                entries@.len() == k,
                forall|i: int|
                    0 <= i < k ==> #[trigger] entries@[i] == placed_entry(counters@, slots@, i),
            decreases counters@.len() - k,
        {
            let slot = find_smbios_match(&counters[k], &slots, &used);
            proof {
                lemma_slot_is_free(counters@[k as int], slots@, used@);
            }
            let smbios = match slot {
                Some(i) => {
                    used.set(i, true);
                    Some(slots[i].clone())
                },
                None => None,
            };
            entries.push(DimmEntry { edac: Some(counters[k].clone()), smbios });
            k = k + 1;
        }
        let ghost placed = entries@;
        let mut i: usize = 0;
        assert(placed + Seq::<DimmEntry>::empty() =~= placed);
        while i < slots.len()
            invariant
                i <= slots@.len(),
                used@.len() == slots@.len(),
                entries@ == placed + free_entries(slots@, used@, i as int),
            decreases slots@.len() - i,
        {
            if !used[i] {
                let entry = DimmEntry { edac: None, smbios: Some(slots[i].clone()) };
                let ghost rest = free_entries(slots@, used@, i as int);
                assert((placed + rest).push(entry) =~= placed + rest.push(entry));
                entries.push(entry);
            }
            i = i + 1;
        }
        assert(placed =~= Seq::new(
            counters@.len(),
            |k: int| placed_entry(counters@, slots@, k),
        ));
        if entries.len() == 0 {
            None
        } else {
            Some(DimmTopology { dimms: entries })
        }
    }
}

impl DimmEntry {
    /// The text between brackets, with a blank in front, if there is a location.
    pub open spec fn location_text(location: Option<String>) -> Seq<char> {
        match location {
            Some(loc) => " ["@ + loc@ + "]"@,
            None => Seq::empty(),
        }
    }

    /// How the entry reads.
    pub open spec fn shown(&self) -> Seq<char> {
        match (self.smbios, self.edac) {
            (Some(smbios), Some(edac)) => {
                let made = match smbios.manufacturer {
                    Some(mfr) => " ("@ + mfr@ + " "@ + text::decimal(smbios.size_mb as int) + "MB "@
                        + smbios.memory_type@ + "-"@ + text::decimal(smbios.speed_mhz as int) + ")"@,
                    None => Seq::empty(),
                };
                smbios.device_locator@ + made + Self::location_text(edac.location)
            },
            (Some(smbios), None) => {
                let made = match smbios.manufacturer {
                    Some(mfr) => " ("@ + mfr@ + " "@ + text::decimal(smbios.size_mb as int) + "MB "@
                        + smbios.memory_type@ + ")"@,
                    None => Seq::empty(),
                };
                smbios.device_locator@ + made
            },
            (None, Some(edac)) => {
                let label = match edac.label {
                    Some(label) => " ("@ + label@ + ")"@,
                    None => Seq::empty(),
                };
                "mc"@ + text::decimal(edac.mc as int) + "/dimm"@ + text::decimal(
                    edac.dimm_index as int,
                ) + Self::location_text(edac.location) + label
            },
            (None, None) => "(unknown)"@,
        }
    }

    /// How the entry reads.
    pub fn to_string(&self) -> (s: String)
        ensures
            s@ == self.shown(),
    {
        let mut s = String::new();
        match (&self.smbios, &self.edac) {
            (Some(smbios), Some(edac)) => {
                s.append(&smbios.device_locator);
                if let Some(mfr) = &smbios.manufacturer {
                    s.append(" (");
                    s.append(mfr);
                    s.append(" ");
                    s.append(&decimal_string(smbios.size_mb));
                    s.append("MB ");
                    s.append(&smbios.memory_type);
                    s.append("-");
                    s.append(&decimal_string(smbios.speed_mhz));
                    s.append(")");
                }
                if let Some(loc) = &edac.location {
                    s.append(" [");
                    s.append(loc);
                    s.append("]");
                }
            },
            (Some(smbios), None) => {
                s.append(&smbios.device_locator);
                if let Some(mfr) = &smbios.manufacturer {
                    s.append(" (");
                    s.append(mfr);
                    s.append(" ");
                    s.append(&decimal_string(smbios.size_mb));
                    s.append("MB ");
                    s.append(&smbios.memory_type);
                    s.append(")");
                }
            },
            (None, Some(edac)) => {
                s.append("mc");
                s.append(&decimal_string(edac.mc as u64));
                s.append("/dimm");
                s.append(&decimal_string(edac.dimm_index as u64));
                if let Some(loc) = &edac.location {
                    s.append(" [");
                    s.append(loc);
                    s.append("]");
                }
                if let Some(label) = &edac.label {
                    s.append(" (");
                    s.append(label);
                    s.append(")");
                }
            },
            (None, None) => {
                s.append("(unknown)");
            },
        }
        assert(s@ =~= self.shown());
        s
    }
}

/// The slots that are free.
pub open spec fn free_slots(used: Seq<bool>, n: int) -> int
    decreases n,
{
    if n <= 0 {
        0
    } else {
        free_slots(used, n - 1) + if used[n - 1] {
            0int
        } else {
            1
        }
    }
}

/// How many of the first `n` modules with counters have a slot.
pub open spec fn placed_count(edac: Seq<DimmEdac>, smbios: Seq<DimmInfo>, n: int) -> int
    decreases n,
{
    if n <= 0 {
        0
    } else {
        placed_count(edac, smbios, n - 1) + if placed(edac, smbios, n - 1) is Some {
            1int
        } else {
            0
        }
    }
}

/// Taking a free slot leaves one less.
proof fn lemma_take_slot(used: Seq<bool>, i: int, n: int)
    requires
        0 <= n <= used.len(),
        0 <= i < used.len(),
        !used[i],
    ensures
        free_slots(used.update(i, true), n) == free_slots(used, n) - if i < n {
            1int
        } else {
            0
        },
    decreases n,
{
    if n > 0 {
        lemma_take_slot(used, i, n - 1);
    }
}

proof fn lemma_free_entries(smbios: Seq<DimmInfo>, used: Seq<bool>, n: int)
    requires
        0 <= n <= smbios.len(),
    ensures
        free_entries(smbios, used, n).len() == free_slots(used, n),
        forall|k: int|
            0 <= k < free_entries(smbios, used, n).len() ==> (#[trigger] free_entries(
                smbios,
                used,
                n,
            )[k]).edac is None,
    decreases n,
{
    if n > 0 {
        lemma_free_entries(smbios, used, n - 1);
        let rest = free_entries(smbios, used, n - 1);
        assert forall|k: int| 0 <= k < free_entries(smbios, used, n).len() implies (
        #[trigger] free_entries(smbios, used, n)[k]).edac is None by {
            if k < rest.len() {
                assert(free_entries(smbios, used, n)[k] == rest[k]);
            }
        }
    }
}

proof fn lemma_taken(edac: Seq<DimmEdac>, smbios: Seq<DimmInfo>, n: int)
    requires
        0 <= n <= edac.len(),
    ensures
        taken(edac, smbios, n).len() == smbios.len(),
        free_slots(taken(edac, smbios, n), smbios.len() as int) == smbios.len() - placed_count(
            edac,
            smbios,
            n,
        ),
    decreases n,
{
    if n > 0 {
        lemma_taken(edac, smbios, n - 1);
        let before = taken(edac, smbios, n - 1);
        lemma_slot_is_free(edac[n - 1], smbios, before);
        if let Some(i) = slot_of(edac[n - 1], smbios, before) {
            lemma_take_slot(before, i, smbios.len() as int);
        }
    } else {
        lemma_all_free(taken(edac, smbios, 0), smbios.len() as int);
    }
}

proof fn lemma_all_free(used: Seq<bool>, n: int)
    requires
        0 <= n <= used.len(),
        forall|i: int| 0 <= i < used.len() ==> !#[trigger] used[i],
    ensures
        free_slots(used, n) == n,
    decreases n,
{
    if n > 0 {
        lemma_all_free(used, n - 1);
    }
}

/// Nothing is lost and nothing is listed twice: every module with counters has
/// one entry, and the entries are as many as modules and slots together, less one
/// for each module that was placed in a slot.
pub proof fn law_every_module_is_listed(edac: Seq<DimmEdac>, smbios: Seq<DimmInfo>)
    ensures
        merged(edac, smbios).len() == edac.len() + smbios.len() - placed_count(
            edac,
            smbios,
            edac.len() as int,
        ),
        forall|k: int|
            0 <= k < edac.len() ==> (#[trigger] merged(edac, smbios)[k]).edac == Some(edac[k]),
        forall|k: int|
            edac.len() <= k < merged(edac, smbios).len() ==> (#[trigger] merged(
                edac,
                smbios,
            )[k]).edac is None,
{
    let used = taken(edac, smbios, edac.len() as int);
    lemma_taken(edac, smbios, edac.len() as int);
    lemma_free_entries(smbios, used, smbios.len() as int);
    let free = free_entries(smbios, used, smbios.len() as int);
    assert forall|k: int| edac.len() <= k < merged(edac, smbios).len() implies (#[trigger] merged(
        edac,
        smbios,
    )[k]).edac is None by {
        assert(merged(edac, smbios)[k] == free[k - edac.len()]);
    }
}

/// A slot that was taken stays taken.
proof fn lemma_taken_stays(edac: Seq<DimmEdac>, smbios: Seq<DimmInfo>, j: int, k: int, i: int)
    requires
        0 <= j <= k <= edac.len(),
        0 <= i < smbios.len(),
        taken(edac, smbios, j)[i],
    ensures
        taken(edac, smbios, k)[i],
    decreases k,
{
    if j < k {
        lemma_taken_stays(edac, smbios, j, k - 1, i);
        lemma_taken(edac, smbios, k - 1);
        lemma_slot_is_free(edac[k - 1], smbios, taken(edac, smbios, k - 1));
    }
}

/// No two modules are placed in one slot.
pub proof fn law_no_slot_is_shared(edac: Seq<DimmEdac>, smbios: Seq<DimmInfo>, j: int, k: int)
    requires
        0 <= j < k < edac.len(),
        placed(edac, smbios, j) is Some,
        placed(edac, smbios, k) is Some,
    ensures
        placed(edac, smbios, j) != placed(edac, smbios, k),
{
    let i = placed(edac, smbios, j)->0;
    lemma_taken(edac, smbios, j);
    lemma_taken(edac, smbios, k);
    lemma_slot_is_free(edac[j], smbios, taken(edac, smbios, j));
    lemma_slot_is_free(edac[k], smbios, taken(edac, smbios, k));
    assert(taken(edac, smbios, j + 1)[i]);
    lemma_taken_stays(edac, smbios, j + 1, k, i);
}

/// Whether the bank of slot `i`, in lower case, has a name and holds the location or is held
/// by it.
pub open spec fn fits(location: Seq<char>, smbios: Seq<DimmInfo>, i: int) -> bool {
    let bank = lowercase(smbios[i].bank_locator@);
    &&& bank.len() > 0
    &&& text::holds_text(bank, lowercase(location)) || text::holds_text(lowercase(location), bank)
}

/// Whether slot `i` is free and carries the label of the module.
pub open spec fn labelled(edac: DimmEdac, smbios: Seq<DimmInfo>, used: Seq<bool>, i: int) -> bool {
    0 <= i < smbios.len() && !used[i] && edac.label is Some && smbios[i].device_locator@
        == edac.label->0@
}

/// Whether slot `i` is free and fits the location of the module.
pub open spec fn located(edac: DimmEdac, smbios: Seq<DimmInfo>, used: Seq<bool>, i: int) -> bool {
    0 <= i < smbios.len() && !used[i] && edac.location is Some && fits(
        edac.location->0@,
        smbios,
        i,
    )
}

/// The slot that a module with counters sits in. If a free slot carries its label, it is
/// the first such one. If none does and a free slot fits its location, it is the first such
/// one. There is none only if no free slot carries its label and none fits its location.
pub proof fn law_slot_of_a_module(edac: DimmEdac, smbios: Seq<DimmInfo>, used: Seq<bool>)
    requires
        used.len() == smbios.len(),
    ensures
        match slot_of(edac, smbios, used) {
            Some(i) => {
                ||| labelled(edac, smbios, used, i) && forall|j: int|
                    0 <= j < i ==> !#[trigger] labelled(edac, smbios, used, j)
                ||| (forall|j: int| !#[trigger] labelled(edac, smbios, used, j)) && located(
                    edac,
                    smbios,
                    used,
                    i,
                ) && forall|j: int| 0 <= j < i ==> !#[trigger] located(edac, smbios, used, j)
            },
            None => (forall|j: int| !#[trigger] labelled(edac, smbios, used, j)) && (forall|j: int|
                !#[trigger] located(edac, smbios, used, j)),
        },
{
    let banks = lower_banks(smbios);
    if let Some(label) = edac.label {
        lemma_slot_named(label@, smbios, used, 0);
        lemma_first_named(label@, smbios, used, 0);
        assert forall|j: int| #[trigger] labelled(edac, smbios, used, j) implies (slot_named(
            label@,
            smbios,
            used,
            0,
        ) matches Some(i) && i <= j) by {
            assert(smbios[j].device_locator@ == label@);
        }
    }
    if let Some(location) = edac.location {
        let place = lowercase(location@);
        lemma_slot_located(place, banks, used, 0);
        lemma_first_located(place, banks, used, 0);
        assert forall|j: int| #[trigger] located(edac, smbios, used, j) implies (slot_located(
            place,
            banks,
            used,
            0,
        ) matches Some(i) && i <= j) by {
            assert(banks[j] == lowercase(smbios[j].bank_locator@));
        }
        if let Some(i) = slot_located(place, banks, used, 0) {
            assert(banks[i] == lowercase(smbios[i].bank_locator@));
            assert(located(edac, smbios, used, i));
        }
    }
}

proof fn lemma_first_named(label: Seq<char>, smbios: Seq<DimmInfo>, used: Seq<bool>, from: int)
    requires
        0 <= from,
    ensures
        forall|j: int|
            from <= j < smbios.len() && !used[j] && (#[trigger] smbios[j]).device_locator@ == label
                ==> (slot_named(label, smbios, used, from) matches Some(i) && i <= j),
    decreases smbios.len() - from,
{
    if from < smbios.len() {
        lemma_first_named(label, smbios, used, from + 1);
        lemma_slot_named(label, smbios, used, from + 1);
    }
}

proof fn lemma_first_located(
    location: Seq<char>,
    banks: Seq<Seq<char>>,
    used: Seq<bool>,
    from: int,
)
    requires
        0 <= from,
    ensures
        slot_located(location, banks, used, from) matches Some(i) ==> banks[i].len() > 0 && (
        text::holds_text(banks[i], location) || text::holds_text(location, banks[i])),
        forall|j: int|
            from <= j < banks.len() && !used[j] && (#[trigger] banks[j]).len() > 0 && (
            text::holds_text(banks[j], location) || text::holds_text(location, banks[j])) ==> (
            slot_located(location, banks, used, from) matches Some(i) && i <= j),
    decreases banks.len() - from,
{
    if from < banks.len() {
        lemma_first_located(location, banks, used, from + 1);
        lemma_slot_located(location, banks, used, from + 1);
    }
}

/// Every slot is listed once: with the module that was placed in it, or by itself. The
/// entry of each module tells the slot that it was placed in, and the slots that are left
/// follow in their order.
pub proof fn law_every_slot_is_listed(edac: Seq<DimmEdac>, smbios: Seq<DimmInfo>)
    ensures
        forall|k: int|
            0 <= k < edac.len() ==> (#[trigger] merged(edac, smbios)[k]).smbios == match placed(
                edac,
                smbios,
                k,
            ) {
                Some(i) => Some(smbios[i]),
                None => None,
            },
        forall|i: int|
            0 <= i < smbios.len() ==> (#[trigger] taken(edac, smbios, edac.len() as int)[i]
                <==> exists|k: int| 0 <= k < edac.len() && #[trigger] placed(edac, smbios, k) == Some(i)),
        merged(edac, smbios).skip(edac.len() as int) == Seq::new(
            smbios.len(),
            |i: int| i,
        ).filter(|i: int| !taken(edac, smbios, edac.len() as int)[i]).map_values(
            |i: int| DimmEntry { edac: None, smbios: Some(smbios[i]) },
        ),
{
    let n = edac.len() as int;
    let used = taken(edac, smbios, n);
    assert forall|i: int| 0 <= i < smbios.len() implies (#[trigger] used[i] <==> exists|k: int|
        0 <= k < n && #[trigger] placed(edac, smbios, k) == Some(i)) by {
        lemma_taken_by(edac, smbios, n, i);
    }
    lemma_free_are_filtered(smbios, used, smbios.len() as int);
    let free = free_entries(smbios, used, smbios.len() as int);
    assert(merged(edac, smbios).skip(n) =~= free);
}

proof fn lemma_taken_by(edac: Seq<DimmEdac>, smbios: Seq<DimmInfo>, n: int, i: int)
    requires
        0 <= n <= edac.len(),
        0 <= i < smbios.len(),
    ensures
        taken(edac, smbios, n)[i] <==> exists|k: int|
            0 <= k < n && #[trigger] placed(edac, smbios, k) == Some(i),
    decreases n,
{
    if n > 0 {
        lemma_taken_by(edac, smbios, n - 1, i);
        lemma_taken(edac, smbios, n - 1);
        lemma_slot_is_free(edac[n - 1], smbios, taken(edac, smbios, n - 1));
        assert(placed(edac, smbios, n - 1) == slot_of(
            edac[n - 1],
            smbios,
            taken(edac, smbios, n - 1),
        ));
        if exists|k: int| 0 <= k < n - 1 && #[trigger] placed(edac, smbios, k) == Some(i) {
            let k = choose|k: int| 0 <= k < n - 1 && #[trigger] placed(edac, smbios, k) == Some(i);
            assert(0 <= k < n && placed(edac, smbios, k) == Some(i));
        }
    }
}

proof fn lemma_free_are_filtered(smbios: Seq<DimmInfo>, used: Seq<bool>, n: int)
    requires
        0 <= n <= smbios.len(),
    ensures
        free_entries(smbios, used, n) == Seq::new(n as nat, |i: int| i).filter(
            |i: int| !used[i],
        ).map_values(|i: int| DimmEntry { edac: None, smbios: Some(smbios[i]) }),
    decreases n,
{
    reveal(Seq::filter);
    let all = Seq::new(n as nat, |i: int| i);
    let left = |i: int| !used[i];
    let entry = |i: int| DimmEntry { edac: None, smbios: Some(smbios[i]) };
    if n > 0 {
        lemma_free_are_filtered(smbios, used, n - 1);
        let shorter = Seq::new((n - 1) as nat, |i: int| i);
        assert(all.drop_last() =~= shorter);
        assert(all.last() == n - 1);
        if !used[n - 1] {
            assert(all.filter(left) == shorter.filter(left).push(n - 1));
            assert(shorter.filter(left).push(n - 1).map_values(entry) =~= shorter.filter(
                left,
            ).map_values(entry).push(entry(n - 1)));
        }
    } else {
        assert(all.filter(left).map_values(entry) =~= Seq::empty());
    }
}

/// What is shown of a module tells its slot if the firmware knows it, with its maker and
/// size if these are known, else its place among the counters; and its location if there
/// is one.
pub proof fn law_entry_tells_the_module(entry: DimmEntry)
    ensures
        entry.smbios matches Some(smbios) ==> {
            &&& text::holds_text(entry.shown(), smbios.device_locator@)
            &&& smbios.manufacturer matches Some(maker) ==> text::holds_text(
                entry.shown(),
                " ("@ + maker@ + " "@ + text::decimal(smbios.size_mb as int) + "MB "@
                    + smbios.memory_type@,
            )
            &&& entry.edac is Some ==> (smbios.manufacturer is Some ==> text::holds_text(
                entry.shown(),
                "-"@ + text::decimal(smbios.speed_mhz as int) + ")"@,
            ))
        },
        entry.edac matches Some(edac) ==> {
            &&& edac.location matches Some(place) ==> text::holds_text(
                entry.shown(),
                " ["@ + place@ + "]"@,
            )
            &&& entry.smbios is None ==> text::holds_text(
                entry.shown(),
                "mc"@ + text::decimal(edac.mc as int) + "/dimm"@ + text::decimal(
                    edac.dimm_index as int,
                ),
            )
            &&& entry.smbios is None ==> (edac.label matches Some(label) ==> text::holds_text(
                entry.shown(),
                " ("@ + label@ + ")"@,
            ))
        },
{
    match (entry.smbios, entry.edac) {
        (Some(smbios), Some(edac)) => {
            let place = DimmEntry::location_text(edac.location);
            let made = match smbios.manufacturer {
                Some(mfr) => " ("@ + mfr@ + " "@ + text::decimal(smbios.size_mb as int) + "MB "@
                    + smbios.memory_type@ + "-"@ + text::decimal(smbios.speed_mhz as int) + ")"@,
                None => Seq::empty(),
            };
            text::lemma_text_grows(smbios.device_locator@, made);
            text::lemma_text_grows(smbios.device_locator@ + made, place);
            if let Some(mfr) = smbios.manufacturer {
                let head = " ("@ + mfr@ + " "@ + text::decimal(smbios.size_mb as int) + "MB "@
                    + smbios.memory_type@;
                let speed = text::decimal(smbios.speed_mhz as int);
                text::lemma_text_grows(head, "-"@);
                text::lemma_text_grows(head + "-"@, speed);
                text::lemma_text_grows(head + "-"@ + speed, ")"@);
                text::lemma_holds_pieces(head, "-"@, speed, ")"@);
            }
        },
        (Some(smbios), None) => {
            let made = match smbios.manufacturer {
                Some(mfr) => " ("@ + mfr@ + " "@ + text::decimal(smbios.size_mb as int) + "MB "@
                    + smbios.memory_type@ + ")"@,
                None => Seq::empty(),
            };
            text::lemma_text_grows(smbios.device_locator@, made);
            if let Some(mfr) = smbios.manufacturer {
                text::lemma_text_grows(
                    " ("@ + mfr@ + " "@ + text::decimal(smbios.size_mb as int) + "MB "@
                        + smbios.memory_type@,
                    ")"@,
                );
            }
        },
        (None, Some(edac)) => {
            let label = match edac.label {
                Some(label) => " ("@ + label@ + ")"@,
                None => Seq::empty(),
            };
            let place = DimmEntry::location_text(edac.location);
            let head = "mc"@ + text::decimal(edac.mc as int) + "/dimm"@ + text::decimal(
                edac.dimm_index as int,
            );
            text::lemma_text_grows(head, place);
            text::lemma_text_grows(head + place, label);
        },
        (None, None) => {},
    }
}

} // verus!
