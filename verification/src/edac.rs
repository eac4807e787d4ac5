//! Error counters of memory modules, as the kernel publishes them in a tree of
//! small files, and how they change over a test.

use crate::text::{
    self, chars_of, copy_optional, decimal_string, parse_number, parse_size_number, same_text,
    sorted_order, starts_with, string_of, strip_prefix, trim,
};
use vstd::prelude::*;
use vstd::string::StringExecFns;

verus! {

/// One file: its name, and what it holds if it could be read.
pub struct SysFile {
    pub name: String,
    pub contents: Option<String>,
}

/// A directory with files. The name is empty if it is not text.
pub struct SysDir {
    pub name: String,
    pub files: Vec<SysFile>,
}

/// The directory of a memory controller, with its entries if they could be
/// listed. The name is empty if it is not text.
pub struct ControllerDir {
    pub name: String,
    pub entries: Option<Vec<SysDir>>,
}

/// The error counters of one memory module.
#[derive(Debug)]
pub struct DimmEdac {
    /// The memory controller.
    pub mc: usize,
    /// The module within the controller.
    pub dimm_index: usize,
    /// The label, often empty.
    pub label: Option<String>,
    /// Where the module sits.
    pub location: Option<String>,
    /// Errors that were corrected.
    pub ce_count: u64,
    /// Errors that were not.
    pub ue_count: u64,
}

/// The error counters of one memory module, with texts as sequences.
pub struct DimmView {
    pub mc: int,
    pub dimm_index: int,
    pub label: Option<Seq<char>>,
    pub location: Option<Seq<char>>,
    pub ce_count: int,
    pub ue_count: int,
}

impl View for DimmEdac {
    type V = DimmView;

    open spec fn view(&self) -> DimmView {
        DimmView {
            mc: self.mc as int,
            dimm_index: self.dimm_index as int,
            label: text::optional(self.label),
            location: text::optional(self.location),
            ce_count: self.ce_count as int,
            ue_count: self.ue_count as int,
        }
    }
}

impl Clone for DimmEdac {
    fn clone(&self) -> (copy: Self)
        ensures
            copy == *self,
    {
        DimmEdac {
            mc: self.mc,
            dimm_index: self.dimm_index,
            label: copy_optional(&self.label),
            location: copy_optional(&self.location),
            ce_count: self.ce_count,
            ue_count: self.ue_count,
        }
    }
}

/// The counters of several modules, with texts as sequences.
pub open spec fn dimm_views(dimms: Seq<DimmEdac>) -> Seq<DimmView> {
    Seq::new(dimms.len(), |i: int| dimms[i]@)
}

/// All error counters at one time.
#[derive(Debug)]
pub struct EdacSnapshot {
    pub dimms: Vec<DimmEdac>,
}

/// How the error counters of a module changed.
#[derive(Debug)]
pub struct EccDelta {
    pub mc: usize,
    pub dimm_index: usize,
    pub label: Option<String>,
    pub ce_delta: u64,
    pub ue_delta: u64,
}

impl Clone for EccDelta {
    fn clone(&self) -> (copy: Self)
        ensures
            copy == *self,
    {
        EccDelta {
            mc: self.mc,
            dimm_index: self.dimm_index,
            label: copy_optional(&self.label),
            ce_delta: self.ce_delta,
            ue_delta: self.ue_delta,
        }
    }
}

/// What the file of that name holds: `None` if there is none, `Some(None)` if it
/// could not be read.
pub open spec fn file_in(files: Seq<SysFile>, name: Seq<char>) -> Option<Option<Seq<char>>>
    decreases files.len(),
{
    if files.len() == 0 {
        None
    } else if files[0].name@ == name {
        Some(text::optional(files[0].contents))
    } else {
        file_in(files.skip(1), name)
    }
}

/// The number that a file holds, if it could be read and is one.
pub open spec fn number_from(contents: Option<Option<Seq<char>>>) -> Option<int> {
    match contents {
        Some(Some(s)) => text::number_up_to(text::trimmed(s), 10, u64::MAX as int),
        _ => None,
    }
}

/// The counter that a file holds; zero if there is none.
pub open spec fn counter_from(contents: Option<Option<Seq<char>>>) -> int {
    match number_from(contents) {
        Some(n) => n,
        None => 0,
    }
}

/// The text that a file holds without surrounding blanks, if there is any.
pub open spec fn text_from(contents: Option<Option<Seq<char>>>) -> Option<Seq<char>> {
    match contents {
        Some(Some(s)) => if text::trimmed(s).len() == 0 {
            None
        } else {
            Some(text::trimmed(s))
        },
        _ => None,
    }
}

/// The contents of a file, as far as it was read.
pub open spec fn contents_of(contents: Option<&str>) -> Option<Option<Seq<char>>> {
    match contents {
        Some(s) => Some(Some(s@)),
        None => None,
    }
}

/// The number that a file holds, given its contents if it could be read.
pub fn read_u64_file(contents: Option<&str>) -> (n: Option<u64>)
    ensures
        n is Some <==> number_from(contents_of(contents)) is Some,
        n matches Some(v) ==> number_from(contents_of(contents)) == Some(v as int),
{
    match contents {
        Some(s) => parse_number(&trim(&chars_of(s)), 10),
        None => None,
    }
}

/// The text that a file holds without surrounding blanks, given its contents if
/// it could be read; `None` if nothing is left.
pub fn read_trimmed(contents: Option<&str>) -> (t: Option<String>)
    ensures
        text::optional(t) == text_from(contents_of(contents)),
{
    match contents {
        Some(s) => {
            let t = trim(&chars_of(s));
            if t.len() == 0 {
                None
            } else {
                Some(string_of(&t))
            }
        },
        None => None,
    }
}

/// Find a file by its name.
fn find_file<'a>(files: &'a [SysFile], name: &str) -> (found: Option<&'a SysFile>)
    ensures
        found is Some <==> file_in(files@, name@) is Some,
        found matches Some(f) ==> file_in(files@, name@) == Some(text::optional(f.contents)),
{
    let mut i: usize = 0;
    assert(files@.skip(0) =~= files@);
    while i < files.len()
        invariant
            i <= files@.len(),
            file_in(files@.skip(i as int), name@) == file_in(files@, name@),
        decreases files@.len() - i,
    {
        assert(files@.skip(i as int)[0] == files@[i as int]);
        assert(files@.skip(i as int).skip(1) =~= files@.skip(i + 1));
        if same_text(&files[i].name, name) {
            return Some(&files[i]);
        }
        i = i + 1;
    }
    None
}

/// The contents of the file of that name, if it is there and could be read.
fn read_file<'a>(files: &'a [SysFile], name: &str) -> (contents: Option<&'a str>)
    ensures
        number_from(contents_of(contents)) == number_from(file_in(files@, name@)),
        text_from(contents_of(contents)) == text_from(file_in(files@, name@)),
{
    match find_file(files, name) {
        Some(f) => match &f.contents {
            Some(s) => Some(s.as_str()),
            None => None,
        },
        None => None,
    }
}

/// The counter that the file of that name holds; zero if there is none.
fn read_counter(files: &[SysFile], name: &str) -> (n: u64)
    ensures
        n == counter_from(file_in(files@, name@)),
{
    match read_u64_file(read_file(files, name)) {
        Some(n) => n,
        None => 0,
    }
}

/// The names of directories.
pub open spec fn dir_names(dirs: Seq<SysDir>) -> Seq<Seq<char>> {
    Seq::new(dirs.len(), |i: int| dirs[i].name@)
}

/// The directories in the order of their names.
pub open spec fn by_name(dirs: Seq<SysDir>) -> Seq<SysDir> {
    let order = text::order_of(dir_names(dirs), dirs.len() as int);
    Seq::new(dirs.len(), |k: int| dirs[order[k]])
}

/// The positions of the directories in the order of their names.
fn dir_order(dirs: &[SysDir]) -> (order: Vec<usize>)
    ensures
        order@.len() == dirs@.len(),
        forall|k: int| 0 <= k < order@.len() ==> #[trigger] order@[k] < dirs@.len(),
        forall|k: int|
            0 <= k < order@.len() ==> dirs@[#[trigger] order@[k] as int] == by_name(dirs@)[k],
{
    let mut names: Vec<String> = Vec::new();
    let mut i: usize = 0;
    while i < dirs.len()
        invariant
            i <= dirs@.len(),
            names@.len() == i,
            forall|k: int| 0 <= k < i ==> #[trigger] names@[k] == dirs@[k].name,
        decreases dirs@.len() - i,
    {
        names.push(dirs[i].name.clone());
        i = i + 1;
    }
    let order = sorted_order(&names);
    assert(text::string_texts(names@) =~= dir_names(dirs@));
    assert forall|k: int| 0 <= k < order@.len() implies dirs@[#[trigger] order@[k] as int]
        == by_name(dirs@)[k] by {
        assert(order@[k] == text::order_of(dir_names(dirs@), dirs@.len() as int)[k]);
    }
    order
}

/// The module that a directory describes, where each module has its own.
pub open spec fn module_in(mc: int, dir: SysDir) -> Option<DimmView> {
    if text::begins_with(dir.name@, "dimm"@) {
        match text::number_up_to(
            dir.name@.skip("dimm"@.len() as int),
            10,
            usize::MAX as int,
        ) {
            Some(index) => Some(
                DimmView {
                    mc,
                    dimm_index: index,
                    label: text_from(file_in(dir.files@, "dimm_label"@)),
                    location: text_from(file_in(dir.files@, "dimm_location"@)),
                    ce_count: counter_from(file_in(dir.files@, "dimm_ce_count"@)),
                    ue_count: counter_from(file_in(dir.files@, "dimm_ue_count"@)),
                },
            ),
            None => None,
        }
    } else {
        None
    }
}

/// The modules that the first `n` directories describe, where each module has
/// its own.
pub open spec fn modules_in(mc: int, dirs: Seq<SysDir>, n: int) -> Seq<DimmView>
    decreases n,
{
    if n <= 0 {
        Seq::empty()
    } else {
        let rest = modules_in(mc, dirs, n - 1);
        match module_in(mc, dirs[n - 1]) {
            Some(module) => rest.push(module),
            None => rest,
        }
    }
}

/// Read the modules of a controller that has a directory for each, in the order
/// of their names. Returns whether there was any.
pub fn try_read_dimm_api(
    entries: Option<&Vec<SysDir>>,
    mc_index: usize,
    dimms: &mut Vec<DimmEdac>,
) -> (found: bool)
    ensures
        dimm_views(final(dimms)@) == dimm_views(old(dimms)@) + match entries {
            Some(dirs) => modules_in(mc_index as int, by_name(dirs@), dirs@.len() as int),
            None => Seq::empty(),
        },
        found == (final(dimms)@.len() > old(dimms)@.len()),
{
    let dirs = match entries {
        Some(dirs) => dirs,
        None => {
            assert(dimm_views(dimms@) + Seq::<DimmView>::empty() =~= dimm_views(dimms@));
            return false;
        },
    };
    let order = dir_order(dirs);
    let ghost before = dimms@;
    let ghost sorted = by_name(dirs@);
    let mut found = false;
    let mut k: usize = 0;
    assert(dimm_views(dimms@) + Seq::<DimmView>::empty() =~= dimm_views(dimms@));
    while k < order.len()
        invariant
            k <= order@.len(),
            before == old(dimms)@,
            order@.len() == dirs@.len(),
            sorted == by_name(dirs@),
            forall|j: int| 0 <= j < order@.len() ==> #[trigger] order@[j] < dirs@.len(),
            forall|j: int|
                0 <= j < order@.len() ==> dirs@[#[trigger] order@[j] as int] == sorted[j],
            dimm_views(dimms@) == dimm_views(before) + modules_in(mc_index as int, sorted, k as int),
            found == (dimms@.len() > before.len()),
            dimms@.len() >= before.len(),
        decreases order@.len() - k,
    {
        let dir = &dirs[order[k]];
        assert(*dir == sorted[k as int]);
        let ghost views0 = dimm_views(dimms@);
        if let Some(digits) = strip_prefix(&chars_of(&dir.name), "dimm") {
            if let Some(dimm_index) = parse_size_number(&digits, 10) {
                let dimm = DimmEdac {
                    mc: mc_index,
                    dimm_index,
                    label: read_trimmed(read_file(&dir.files, "dimm_label")),
                    location: read_trimmed(read_file(&dir.files, "dimm_location")),
                    ce_count: read_counter(&dir.files, "dimm_ce_count"),
                    ue_count: read_counter(&dir.files, "dimm_ue_count"),
                };
                let ghost module = dimm@;
                assert(module_in(mc_index as int, *dir) == Some(module));
                dimms.push(dimm);
                assert(dimm_views(dimms@) =~= views0.push(module));
                found = true;
            }
        }
        assert(dimm_views(dimms@) =~= dimm_views(before) + modules_in(
            mc_index as int,
            sorted,
            k + 1,
        ));
        k = k + 1;
    }
    found
}

/// How many channels a row has at most.
pub const MAX_CHANNELS: u64 = 8;

/// The modules of the channels of a row, from channel `ch` on. The first is
/// module `index` of its controller. Channels end where a counter is missing.
pub open spec fn channels_in(mc: int, dir: SysDir, index: int, ch: int) -> Seq<DimmView>
    decreases MAX_CHANNELS - ch,
{
    let prefix = "ch"@ + text::decimal(ch);
    let counter = file_in(dir.files@, prefix + "_ce_count"@);
    if ch >= MAX_CHANNELS || counter is None {
        Seq::empty()
    } else {
        seq![
            DimmView {
                mc,
                dimm_index: index,
                label: text_from(file_in(dir.files@, prefix + "_dimm_label"@)),
                location: Some(dir.name@ + " channel "@ + text::decimal(ch)),
                ce_count: counter_from(counter),
                ue_count: counter_from(file_in(dir.files@, "ue_count"@)),
            },
        ] + channels_in(mc, dir, index + 1, ch + 1)
    }
}

/// The modules of the first `n` directories, where each row of modules has its
/// own. Modules are counted through.
pub open spec fn rows_in(mc: int, dirs: Seq<SysDir>, n: int) -> Seq<DimmView>
    decreases n,
{
    if n <= 0 {
        Seq::empty()
    } else {
        let rest = rows_in(mc, dirs, n - 1);
        if text::begins_with(dirs[n - 1].name@, "csrow"@) {
            rest + channels_in(mc, dirs[n - 1], rest.len() as int, 0)
        } else {
            rest
        }
    }
}

/// `ch`, the number of a channel, and what the file is about.
fn channel_file(ch: u64, rest: &str) -> (name: String)
    ensures
        name@ == "ch"@ + text::decimal(ch as int) + rest@,
{
    let mut s = String::new();
    s.append("ch");
    s.append(&decimal_string(ch));
    s.append(rest);
    assert(s@ =~= "ch"@ + text::decimal(ch as int) + rest@);
    s
}

/// Read the modules of one row.
fn read_channels(dir: &SysDir, mc_index: usize, base: usize, dimms: &mut Vec<DimmEdac>)
    requires
        base <= old(dimms)@.len(),
    ensures
        dimm_views(final(dimms)@) == dimm_views(old(dimms)@) + channels_in(
            mc_index as int,
            *dir,
            old(dimms)@.len() - base,
            0,
        ),
{
    let ghost before = dimms@;
    let ghost start: int = dimms@.len() - base;
    let mut ch: u64 = 0;
    while ch < MAX_CHANNELS
        invariant
            ch <= MAX_CHANNELS,
            before == old(dimms)@,
            base <= before.len(),
            dimms@.len() == before.len() + ch,
            start == before.len() - base,
            dimm_views(dimms@) + channels_in(mc_index as int, *dir, start + ch, ch as int)
                == dimm_views(before) + channels_in(mc_index as int, *dir, start, 0),
        decreases MAX_CHANNELS - ch,
    {
        let ghost views0 = dimm_views(dimms@);
        let ghost rest = channels_in(mc_index as int, *dir, start + ch, ch as int);
        let ce_name = channel_file(ch, "_ce_count");
        if find_file(&dir.files, &ce_name).is_none() {
            assert(rest =~= Seq::empty());
            assert(views0 + rest =~= views0);
            return;
        }
        let ce_count = read_counter(&dir.files, &ce_name);
        let ue_count = read_counter(&dir.files, "ue_count");
        let label = read_trimmed(read_file(&dir.files, &channel_file(ch, "_dimm_label")));
        let mut location = String::new();
        location.append(&dir.name);
        location.append(" channel ");
        location.append(&decimal_string(ch));
        assert(location@ =~= dir.name@ + " channel "@ + text::decimal(ch as int));
        let dimm = DimmEdac {
            mc: mc_index,
            dimm_index: dimms.len() - base,
            label,
            location: Some(location),
            ce_count,
            ue_count,
        };
        let ghost module = dimm@;
        dimms.push(dimm);
        proof {
            let tail = channels_in(mc_index as int, *dir, start + ch + 1, ch + 1);
            assert(rest == seq![module] + tail);
            assert(dimm_views(dimms@) =~= views0.push(module));
            assert(views0.push(module) + tail =~= views0 + (seq![module] + tail));
        }
        ch = ch + 1;
    }
    assert(channels_in(mc_index as int, *dir, start + ch, ch as int) =~= Seq::empty());
    assert(dimm_views(dimms@) + Seq::<DimmView>::empty() =~= dimm_views(dimms@));
}

/// Read the modules of a controller that has a directory for each row of them.
pub fn try_read_csrow_api(
    entries: Option<&Vec<SysDir>>,
    mc_index: usize,
    dimms: &mut Vec<DimmEdac>,
)
    ensures
        dimm_views(final(dimms)@) == dimm_views(old(dimms)@) + match entries {
            Some(dirs) => rows_in(mc_index as int, by_name(dirs@), dirs@.len() as int),
            None => Seq::empty(),
        },
{
    let dirs = match entries {
        Some(dirs) => dirs,
        None => {
            assert(dimm_views(dimms@) + Seq::<DimmView>::empty() =~= dimm_views(dimms@));
            return;
        },
    };
    let order = dir_order(dirs);
    let ghost before = dimms@;
    let ghost sorted = by_name(dirs@);
    let base: usize = dimms.len();
    let mut k: usize = 0;
    assert(dimm_views(dimms@) + Seq::<DimmView>::empty() =~= dimm_views(dimms@));
    while k < order.len()
        invariant
            k <= order@.len(),
            before == old(dimms)@,
            base == before.len(),
            order@.len() == dirs@.len(),
            sorted == by_name(dirs@),
            forall|j: int| 0 <= j < order@.len() ==> #[trigger] order@[j] < dirs@.len(),
            forall|j: int|
                0 <= j < order@.len() ==> dirs@[#[trigger] order@[j] as int] == sorted[j],
            dimm_views(dimms@) == dimm_views(before) + rows_in(mc_index as int, sorted, k as int),
        decreases order@.len() - k,
    {
        let dir = &dirs[order[k]];
        assert(*dir == sorted[k as int]);
        let ghost views0 = dimm_views(dimms@);
        let ghost rest = rows_in(mc_index as int, sorted, k as int);
        assert(dimms@.len() == views0.len());
        assert(dimm_views(before).len() == before.len());
        if starts_with(&chars_of(&dir.name), &chars_of("csrow")) {
            read_channels(dir, mc_index, base, dimms);
            assert((dimm_views(before) + rest) + channels_in(
                mc_index as int,
                *dir,
                rest.len() as int,
                0,
            ) =~= dimm_views(before) + (rest + channels_in(
                mc_index as int,
                *dir,
                rest.len() as int,
                0,
            )));
        }
        k = k + 1;
    }
}

/// The modules of a controller: those with a directory of their own, or if there
/// is none those of its rows.
pub open spec fn controller_modules(mc: int, entries: Option<Vec<SysDir>>) -> Seq<DimmView> {
    match entries {
        Some(dirs) => {
            let modules = modules_in(mc, by_name(dirs@), dirs@.len() as int);
            if modules.len() > 0 {
                modules
            } else {
                rows_in(mc, by_name(dirs@), dirs@.len() as int)
            }
        },
        None => Seq::empty(),
    }
}

/// The number of the controller of that name, if it is one.
pub open spec fn controller_number(name: Seq<char>) -> Option<int> {
    if text::begins_with(name, "mc"@) {
        text::number_up_to(name.skip("mc"@.len() as int), 10, usize::MAX as int)
    } else {
        None
    }
}

/// The names of controllers.
pub open spec fn controller_names(controllers: Seq<ControllerDir>) -> Seq<Seq<char>> {
    Seq::new(controllers.len(), |i: int| controllers[i].name@)
}

/// The controllers in the order of their names.
pub open spec fn controllers_by_name(controllers: Seq<ControllerDir>) -> Seq<ControllerDir> {
    let order = text::order_of(controller_names(controllers), controllers.len() as int);
    Seq::new(controllers.len(), |k: int| controllers[order[k]])
}

/// The modules of the controllers among the first `n` entries. An entry that is
/// no controller adds nothing.
pub open spec fn all_modules(controllers: Seq<ControllerDir>, n: int) -> Seq<DimmView>
    decreases n,
{
    if n <= 0 {
        Seq::empty()
    } else {
        let rest = all_modules(controllers, n - 1);
        match controller_number(controllers[n - 1].name@) {
            Some(mc) => rest + controller_modules(mc, controllers[n - 1].entries),
            None => rest,
        }
    }
}

/// The error counters that a tree of files shows; `None` without the directory,
/// or if no module is in it.
pub open spec fn captured(controllers: Option<Vec<ControllerDir>>) -> Option<Seq<DimmView>> {
    match controllers {
        Some(dirs) => {
            let modules = all_modules(controllers_by_name(dirs@), dirs@.len() as int);
            if modules.len() == 0 {
                None
            } else {
                Some(modules)
            }
        },
        None => None,
    }
}

impl EdacSnapshot {
    /// The error counters that the controllers' directories show; `None` without
    /// the directory or without modules. What is no controller is passed over.
    #[must_use]
    pub fn capture(controllers: Option<Vec<ControllerDir>>) -> (snapshot: Option<Self>)
        ensures
            snapshot is Some <==> captured(controllers) is Some,
            snapshot matches Some(s) ==> captured(controllers) == Some(dimm_views(s.dimms@)),
    {
        let dirs = match &controllers {
            Some(dirs) => dirs,
            None => {
                return None;
            },
        };
        let mut names: Vec<String> = Vec::new();
        let mut i: usize = 0;
        while i < dirs.len()
            invariant
                i <= dirs@.len(),
                names@.len() == i,
                forall|k: int| 0 <= k < i ==> #[trigger] names@[k] == dirs@[k].name,
            decreases dirs@.len() - i,
        {
            names.push(dirs[i].name.clone());
            i = i + 1;
        }
        let order = sorted_order(&names);
        let ghost sorted = controllers_by_name(dirs@);
        proof {
            assert(text::string_texts(names@) =~= controller_names(dirs@));
            assert forall|k: int| 0 <= k < order@.len() implies dirs@[#[trigger] order@[k] as int]
                == sorted[k] by {
                assert(order@[k] == text::order_of(controller_names(dirs@), dirs@.len() as int)[k]);
            }
        }
        let mut dimms: Vec<DimmEdac> = Vec::new();
        let mut k: usize = 0;
        assert(dimm_views(dimms@) =~= Seq::empty());
        while k < order.len()
            invariant
                k <= order@.len(),
                controllers == Some(*dirs),
                order@.len() == dirs@.len(),
                sorted == controllers_by_name(dirs@),
                forall|j: int| 0 <= j < order@.len() ==> #[trigger] order@[j] < dirs@.len(),
                forall|j: int|
                    0 <= j < order@.len() ==> dirs@[#[trigger] order@[j] as int] == sorted[j],
                all_modules(sorted, k as int) == dimm_views(dimms@),
            decreases order@.len() - k,
        {
            let controller = &dirs[order[k]];
            assert(*controller == sorted[k as int]);
            let number = match strip_prefix(&chars_of(&controller.name), "mc") {
                Some(digits) => parse_size_number(&digits, 10),
                None => None,
            };
            let ghost views0 = dimm_views(dimms@);
            match number {
                Some(mc_index) => {
                    let entries = controller.entries.as_ref();
                    let found = try_read_dimm_api(entries, mc_index, &mut dimms);
                    proof {
                        if !found {
                            assert(dimm_views(dimms@).len() == views0.len());
                            assert(dimm_views(dimms@) =~= views0);
                        }
                    }
                    if !found {
                        try_read_csrow_api(entries, mc_index, &mut dimms);
                    }
                    proof {
                        assert(views0.len() <= dimm_views(dimms@).len());
                        assert(dimm_views(dimms@) =~= views0 + controller_modules(
                            mc_index as int,
                            controller.entries,
                        ));
                    }
                },
                None => {},
            }
            k = k + 1;
        }
        if dimms.len() == 0 {
            return None;
        }
        Some(EdacSnapshot { dimms })
    }

    /// How much the counters of `after` are above those of the first module here
    /// with the same place, if there is one and one of them is.
    pub open spec fn change(&self, after: DimmEdac) -> Option<EccDelta> {
        match counterpart(self.dimms@, after, 0) {
            Some(i) => {
                let before = self.dimms@[i];
                let ce_delta = increase(before.ce_count, after.ce_count);
                let ue_delta = increase(before.ue_count, after.ue_count);
                if ce_delta > 0 || ue_delta > 0 {
                    Some(
                        EccDelta {
                            mc: after.mc,
                            dimm_index: after.dimm_index,
                            label: after.label,
                            ce_delta,
                            ue_delta,
                        },
                    )
                } else {
                    None
                }
            },
            None => None,
        }
    }

    /// The changes of the first `n` modules of `after`, in order.
    pub open spec fn changes(&self, after: Seq<DimmEdac>, n: int) -> Seq<EccDelta>
        decreases n,
    {
        if n <= 0 {
            Seq::empty()
        } else {
            let rest = self.changes(after, n - 1);
            match self.change(after[n - 1]) {
                Some(delta) => rest.push(delta),
                None => rest,
            }
        }
    }

    /// How the counters changed from here to `after`: one entry for each module
    /// of which one went up. A counter that went down counts as unchanged, and a
    /// module that was not there before is passed over.
    #[must_use]
    pub fn delta(&self, after: &EdacSnapshot) -> (deltas: Vec<EccDelta>)
        ensures
            deltas@ == self.changes(after.dimms@, after.dimms@.len() as int),
    {
        let mut deltas: Vec<EccDelta> = Vec::new();
        let mut k: usize = 0;
        while k < after.dimms.len()
            invariant
                k <= after.dimms@.len(),
                deltas@ == self.changes(after.dimms@, k as int),
            decreases after.dimms@.len() - k,
        {
            let now = &after.dimms[k];
            let mut i: usize = 0;
            while i < self.dimms.len() && !(self.dimms[i].mc == now.mc && self.dimms[i].dimm_index
                == now.dimm_index)
                invariant
                    i <= self.dimms@.len(),
                    counterpart(self.dimms@, *now, i as int) == counterpart(self.dimms@, *now, 0),
                decreases self.dimms@.len() - i,
            {
                i = i + 1;
            }
            if i < self.dimms.len() {
                let before = &self.dimms[i];
                let ce_delta = now.ce_count.saturating_sub(before.ce_count);
                let ue_delta = now.ue_count.saturating_sub(before.ue_count);
                if ce_delta > 0 || ue_delta > 0 {
                    deltas.push(
                        EccDelta {
                            mc: now.mc,
                            dimm_index: now.dimm_index,
                            label: copy_optional(&now.label),
                            ce_delta,
                            ue_delta,
                        },
                    );
                }
            }
            k = k + 1;
        }
        deltas
    }
}

/// The first module from `from` on that sits where `dimm` does.
pub open spec fn counterpart(dimms: Seq<DimmEdac>, dimm: DimmEdac, from: int) -> Option<int>
    decreases dimms.len() - from,
{
    if from >= dimms.len() {
        None
    } else if dimms[from].mc == dimm.mc && dimms[from].dimm_index == dimm.dimm_index {
        Some(from)
    } else {
        counterpart(dimms, dimm, from + 1)
    }
}

/// How much `after` is above `before`; zero if it is not.
pub open spec fn increase(before: u64, after: u64) -> u64 {
    if after > before {
        (after - before) as u64
    } else {
        0
    }
}

/// The counterpart sits in the same place.
proof fn lemma_counterpart(dimms: Seq<DimmEdac>, dimm: DimmEdac, from: int)
    requires
        0 <= from,
    ensures
        counterpart(dimms, dimm, from) matches Some(i) ==> from <= i < dimms.len() && dimms[i].mc
            == dimm.mc && dimms[i].dimm_index == dimm.dimm_index,
    decreases dimms.len() - from,
{
    if from < dimms.len() {
        lemma_counterpart(dimms, dimm, from + 1);
    }
}

/// No counter that stays where it was, or goes down, is reported: every change
/// that is has a counter that went up.
pub proof fn law_only_increases_are_reported(before: EdacSnapshot, after: Seq<DimmEdac>, n: int)
    requires
        0 <= n <= after.len(),
    ensures
        forall|k: int|
            0 <= k < before.changes(after, n).len() ==> {
                let delta = #[trigger] before.changes(after, n)[k];
                delta.ce_delta > 0 || delta.ue_delta > 0
            },
        before.changes(after, n).len() <= n,
    decreases n,
{
    if n > 0 {
        law_only_increases_are_reported(before, after, n - 1);
        let rest = before.changes(after, n - 1);
        assert forall|k: int| 0 <= k < before.changes(after, n).len() implies {
            let delta = #[trigger] before.changes(after, n)[k];
            delta.ce_delta > 0 || delta.ue_delta > 0
        } by {
            if k < rest.len() {
                assert(before.changes(after, n)[k] == rest[k]);
            }
        }
    }
}

/// A snapshot shows no change against itself if no two of its modules sit in the
/// same place.
pub proof fn law_no_change_against_itself(snapshot: EdacSnapshot, n: int)
    requires
        0 <= n <= snapshot.dimms@.len(),
        forall|i: int, j: int|
            0 <= i < snapshot.dimms@.len() && 0 <= j < snapshot.dimms@.len() && (
            #[trigger] snapshot.dimms@[i]).mc == (#[trigger] snapshot.dimms@[j]).mc
                && snapshot.dimms@[i].dimm_index == snapshot.dimms@[j].dimm_index ==> i == j,
    ensures
        snapshot.changes(snapshot.dimms@, n).len() == 0,
    decreases n,
{
    if n > 0 {
        law_no_change_against_itself(snapshot, n - 1);
        lemma_counterpart(snapshot.dimms@, snapshot.dimms@[n - 1], 0);
    }
}

/// The counterpart is the first one in the same place, and there is none only if no module
/// is there.
proof fn lemma_counterpart_found(dimms: Seq<DimmEdac>, dimm: DimmEdac, from: int, i: int)
    requires
        0 <= from <= i < dimms.len(),
        dimms[i].mc == dimm.mc,
        dimms[i].dimm_index == dimm.dimm_index,
        forall|j: int|
            from <= j < i ==> (#[trigger] dimms[j]).mc != dimm.mc || dimms[j].dimm_index
                != dimm.dimm_index,
    ensures
        counterpart(dimms, dimm, from) == Some(i),
    decreases i - from,
{
    if from < i {
        assert(dimms[from].mc != dimm.mc || dimms[from].dimm_index != dimm.dimm_index);
        lemma_counterpart_found(dimms, dimm, from + 1, i);
    }
}

/// Every change that is reported is the rise of the counters of one module: it carries the
/// place and the label that the module has afterwards, and by each number the counter
/// afterwards is above the counter before, or it is zero and the counter is not above.
pub proof fn law_changes_are_rises(before: EdacSnapshot, after: Seq<DimmEdac>, n: int, k: int) -> (r: (
    int,
    int,
))
    requires
        0 <= n <= after.len(),
        0 <= k < before.changes(after, n).len(),
    ensures
        ({
            let delta = before.changes(after, n)[k];
            let (i, j) = r;
            &&& 0 <= i < before.dimms@.len()
            &&& 0 <= j < n
            &&& before.dimms@[i].mc == after[j].mc && before.dimms@[i].dimm_index
                == after[j].dimm_index
            &&& delta.mc == after[j].mc && delta.dimm_index == after[j].dimm_index && delta.label
                == after[j].label
            &&& before.dimms@[i].ce_count + delta.ce_delta == after[j].ce_count || (delta.ce_delta
                == 0 && after[j].ce_count <= before.dimms@[i].ce_count)
            &&& before.dimms@[i].ue_count + delta.ue_delta == after[j].ue_count || (delta.ue_delta
                == 0 && after[j].ue_count <= before.dimms@[i].ue_count)
            &&& delta.ce_delta > 0 || delta.ue_delta > 0
        }),
    decreases n,
{
    let rest = before.changes(after, n - 1);
    if k < rest.len() {
        assert(before.changes(after, n)[k] == rest[k]);
        law_changes_are_rises(before, after, n - 1, k)
    } else {
        lemma_counterpart(before.dimms@, after[n - 1], 0);
        (counterpart(before.dimms@, after[n - 1], 0)->0, n - 1)
    }
}

/// No rise is passed over: if a counter of a module is above that of the first module that
/// sat in its place before, a change for that place is reported.
pub proof fn law_every_rise_is_reported(
    before: EdacSnapshot,
    after: Seq<DimmEdac>,
    n: int,
    i: int,
    j: int,
) -> (k: int)
    requires
        0 <= j < n <= after.len(),
        0 <= i < before.dimms@.len(),
        before.dimms@[i].mc == after[j].mc,
        before.dimms@[i].dimm_index == after[j].dimm_index,
        forall|m: int|
            0 <= m < i ==> (#[trigger] before.dimms@[m]).mc != after[j].mc
                || before.dimms@[m].dimm_index != after[j].dimm_index,
        after[j].ce_count > before.dimms@[i].ce_count || after[j].ue_count
            > before.dimms@[i].ue_count,
    ensures
        0 <= k < before.changes(after, n).len(),
        before.changes(after, n)[k].mc == after[j].mc,
        before.changes(after, n)[k].dimm_index == after[j].dimm_index,
        after[j].ce_count > before.dimms@[i].ce_count ==> before.changes(after, n)[k].ce_delta
            == after[j].ce_count - before.dimms@[i].ce_count,
        after[j].ue_count > before.dimms@[i].ue_count ==> before.changes(after, n)[k].ue_delta
            == after[j].ue_count - before.dimms@[i].ue_count,
    decreases n,
{
    if j < n - 1 {
        let k = law_every_rise_is_reported(before, after, n - 1, i, j);
        assert(before.changes(after, n)[k] == before.changes(after, n - 1)[k]);
        k
    } else {
        lemma_counterpart_found(before.dimms@, after[j], 0, i);
        before.changes(after, n).len() - 1
    }
}

/// The directory of a module reads as what stands in its files: the number of the module
/// from its name, corrected errors from one file, uncorrected ones from another, and the
/// label and the location from two more, without blanks around them.
pub proof fn law_module_reads_back(
    mc: int,
    dir: SysDir,
    index: int,
    corrected: int,
    uncorrected: int,
    label: Seq<char>,
    location: Seq<char>,
)
    requires
        0 <= index <= usize::MAX,
        0 <= corrected <= u64::MAX,
        0 <= uncorrected <= u64::MAX,
        dir.name@ == "dimm"@ + text::decimal(index),
        file_in(dir.files@, "dimm_ce_count"@) == Some(Some(text::decimal(corrected) + "\n"@)),
        file_in(dir.files@, "dimm_ue_count"@) == Some(Some(text::decimal(uncorrected) + "\n"@)),
        file_in(dir.files@, "dimm_label"@) == Some(Some(label + "\n"@)),
        file_in(dir.files@, "dimm_location"@) == Some(Some(location + "\n"@)),
        label.len() > 0 && !text::is_blank(label[0]) && !text::is_blank(label.last()),
        location.len() > 0 && !text::is_blank(location[0]) && !text::is_blank(location.last()),
    ensures
        module_in(mc, dir) == Some(
            DimmView {
                mc,
                dimm_index: index,
                label: Some(label),
                location: Some(location),
                ce_count: corrected,
                ue_count: uncorrected,
            },
        ),
{
    reveal_strlit("dimm");
    reveal_strlit("\n");
    text::law_number_on_a_line_reads_back(index, usize::MAX as int);
    text::law_number_on_a_line_reads_back(corrected, u64::MAX as int);
    text::law_number_on_a_line_reads_back(uncorrected, u64::MAX as int);
    text::lemma_trimmed_before_blanks(label, "\n"@);
    text::lemma_trimmed_before_blanks(location, "\n"@);
    assert(dir.name@.take(4) =~= "dimm"@);
    assert(dir.name@.skip(4) =~= text::decimal(index));
}

/// The first file of a name is the one that is read.
pub proof fn law_file_is_found(files: Seq<SysFile>, i: int)
    requires
        0 <= i < files.len(),
        forall|j: int| 0 <= j < i ==> (#[trigger] files[j]).name@ != files[i].name@,
    ensures
        file_in(files, files[i].name@) == Some(text::optional(files[i].contents)),
    decreases i,
{
    if i > 0 {
        assert(files[0].name@ != files[i].name@);
        let rest = files.skip(1);
        assert forall|j: int| 0 <= j < i - 1 implies (#[trigger] rest[j]).name@ != rest[i - 1].name@ by {
            assert(files[j + 1].name@ != files[i].name@);
        }
        law_file_is_found(rest, i - 1);
    }
}

/// The channel of a row of modules reads as what stands in the files of the row: the
/// corrected errors of the channel, the uncorrected ones of the row, and the label of the
/// channel.
pub proof fn law_channel_reads_back(
    mc: int,
    dir: SysDir,
    index: int,
    channel: int,
    corrected: int,
    uncorrected: int,
    label: Seq<char>,
)
    requires
        0 <= channel < 8,
        0 <= corrected <= u64::MAX,
        0 <= uncorrected <= u64::MAX,
        file_in(dir.files@, "ch"@ + text::decimal(channel) + "_ce_count"@) == Some(
            Some(text::decimal(corrected) + "\n"@),
        ),
        file_in(dir.files@, "ue_count"@) == Some(Some(text::decimal(uncorrected) + "\n"@)),
        file_in(dir.files@, "ch"@ + text::decimal(channel) + "_dimm_label"@) == Some(
            Some(label + "\n"@),
        ),
        label.len() > 0 && !text::is_blank(label[0]) && !text::is_blank(label.last()),
    ensures
        channels_in(mc, dir, index, channel).len() > 0,
        channels_in(mc, dir, index, channel)[0] == (DimmView {
            mc,
            dimm_index: index,
            label: Some(label),
            location: Some(dir.name@ + " channel "@ + text::decimal(channel)),
            ce_count: corrected,
            ue_count: uncorrected,
        }),
        channels_in(mc, dir, index, channel).skip(1) == channels_in(
            mc,
            dir,
            index + 1,
            channel + 1,
        ),
{
    reveal_strlit("\n");
    text::law_number_on_a_line_reads_back(corrected, u64::MAX as int);
    text::law_number_on_a_line_reads_back(uncorrected, u64::MAX as int);
    text::lemma_trimmed_before_blanks(label, "\n"@);
    let all = channels_in(mc, dir, index, channel);
    assert(all.skip(1) =~= channels_in(mc, dir, index + 1, channel + 1));
}

/// A controller is known by its name: `mc` and its number.
pub proof fn law_controller_number_reads_back(n: int)
    requires
        0 <= n <= usize::MAX,
    ensures
        controller_number("mc"@ + text::decimal(n)) == Some(n),
{
    reveal_strlit("mc");
    text::law_number_on_a_line_reads_back(n, usize::MAX as int);
    let name = "mc"@ + text::decimal(n);
    assert(name.take(2) =~= "mc"@);
    assert(name.skip(2) =~= text::decimal(n));
}

/// Every directory of a module is read, once and in order, and nothing else is: the
/// modules are those of the places returned, which are all that describe one.
pub proof fn law_every_module_directory_is_read(mc: int, dirs: Seq<SysDir>, n: int) -> (at: Seq<
    int,
>)
    requires
        0 <= n <= dirs.len(),
    ensures
        at.len() == modules_in(mc, dirs, n).len(),
        forall|k: int|
            0 <= k < at.len() ==> 0 <= #[trigger] at[k] < n && module_in(mc, dirs[at[k]]) == Some(
                modules_in(mc, dirs, n)[k],
            ),
        forall|j: int, k: int| 0 <= j < k < at.len() ==> #[trigger] at[j] < #[trigger] at[k],
        forall|i: int|
            0 <= i < n && module_in(mc, #[trigger] dirs[i]) is Some ==> at.contains(i),
    decreases n,
{
    if n <= 0 {
        Seq::empty()
    } else {
        let before = law_every_module_directory_is_read(mc, dirs, n - 1);
        if module_in(mc, dirs[n - 1]) is Some {
            let at = before.push(n - 1);
            assert(at[before.len() as int] == n - 1);
            assert forall|i: int|
                0 <= i < n && module_in(mc, #[trigger] dirs[i]) is Some implies at.contains(i) by {
                if i < n - 1 {
                    let k = choose|k: int| 0 <= k < before.len() && before[k] == i;
                    assert(at[k] == i);
                }
            }
            at
        } else {
            before
        }
    }
}

/// The modules of rows are numbered through, row after row and channel after channel.
pub proof fn law_row_modules_are_numbered_through(mc: int, dirs: Seq<SysDir>, n: int)
    ensures
        forall|k: int|
            0 <= k < rows_in(mc, dirs, n).len() ==> (#[trigger] rows_in(mc, dirs, n)[k]).dimm_index
                == k && rows_in(mc, dirs, n)[k].mc == mc,
    decreases n,
{
    if n > 0 {
        law_row_modules_are_numbered_through(mc, dirs, n - 1);
        let rest = rows_in(mc, dirs, n - 1);
        lemma_channels_are_numbered(mc, dirs[n - 1], rest.len() as int, 0);
    }
}

proof fn lemma_channels_are_numbered(mc: int, dir: SysDir, index: int, ch: int)
    ensures
        forall|k: int|
            0 <= k < channels_in(mc, dir, index, ch).len() ==> (#[trigger] channels_in(
                mc,
                dir,
                index,
                ch,
            )[k]).dimm_index == index + k && channels_in(mc, dir, index, ch)[k].mc == mc,
    decreases MAX_CHANNELS - ch,
{
    let all = channels_in(mc, dir, index, ch);
    if all.len() > 0 {
        lemma_channels_are_numbered(mc, dir, index + 1, ch + 1);
        let rest = channels_in(mc, dir, index + 1, ch + 1);
        assert forall|k: int| 0 <= k < all.len() implies (#[trigger] all[k]).dimm_index == index
            + k && all[k].mc == mc by {
            if k > 0 {
                assert(all[k] == rest[k - 1]);
            }
        }
    }
}

/// The modules of every controller are taken, each with the number of its controller: what
/// the controllers among the first entries show is what each shows, one behind the other.
pub proof fn law_every_controller_is_read(controllers: Seq<ControllerDir>, n: int, i: int) -> (at:
    int)
    requires
        0 <= i < n <= controllers.len(),
        controller_number(controllers[i].name@) is Some,
    ensures
        ({
            let mc = controller_number(controllers[i].name@)->0;
            let own = controller_modules(mc, controllers[i].entries);
            &&& 0 <= at
            &&& at + own.len() <= all_modules(controllers, n).len()
            &&& all_modules(controllers, n).subrange(at, at + own.len()) == own
        }),
    decreases n,
{
    let rest = all_modules(controllers, n - 1);
    let all = all_modules(controllers, n);
    let mc = controller_number(controllers[i].name@)->0;
    let own = controller_modules(mc, controllers[i].entries);
    if i == n - 1 {
        let at = rest.len() as int;
        assert(all.subrange(at, at + own.len()) =~= own);
        at
    } else {
        let at = law_every_controller_is_read(controllers, n - 1, i);
        assert(all.subrange(at, at + own.len()) =~= rest.subrange(at, at + own.len()));
        at
    }
}

/// A controller whose modules have directories of their own is read by these, and by its
/// rows only if there are none.
pub proof fn law_own_directories_come_first(mc: int, dirs: Vec<SysDir>)
    ensures
        ({
            let sorted = by_name(dirs@);
            let n = dirs@.len() as int;
            let shown = controller_modules(mc, Some(dirs));
            &&& (exists|i: int| 0 <= i < n && module_in(mc, #[trigger] sorted[i]) is Some)
                ==> shown == modules_in(mc, sorted, n)
            &&& (forall|i: int| 0 <= i < n ==> module_in(mc, #[trigger] sorted[i]) is None)
                ==> shown == rows_in(mc, sorted, n)
        }),
{
    let sorted = by_name(dirs@);
    let n = dirs@.len() as int;
    let at = law_every_module_directory_is_read(mc, sorted, n);
    if exists|i: int| 0 <= i < n && module_in(mc, #[trigger] sorted[i]) is Some {
        let i = choose|i: int| 0 <= i < n && module_in(mc, #[trigger] sorted[i]) is Some;
        assert(at.contains(i));
    }
    if forall|i: int| 0 <= i < n ==> module_in(mc, #[trigger] sorted[i]) is None {
        if at.len() > 0 {
            assert(module_in(mc, sorted[at[0]]) is None);
        }
    }
}

/// Every row of a controller is read, whatever follows `csrow` in its name, and nothing
/// else is taken for a row.
pub proof fn law_every_row_is_read(mc: int, dirs: Seq<SysDir>, n: int, rest: Seq<char>)
    requires
        0 < n <= dirs.len(),
    ensures
        dirs[n - 1].name@ == "csrow"@ + rest ==> rows_in(mc, dirs, n) == rows_in(mc, dirs, n - 1)
            + channels_in(mc, dirs[n - 1], rows_in(mc, dirs, n - 1).len() as int, 0),
        dirs[n - 1].name@.len() < 5 ==> rows_in(mc, dirs, n) == rows_in(mc, dirs, n - 1),
        dirs[n - 1].name@.len() > 0 && dirs[n - 1].name@[0] != 'c' ==> rows_in(mc, dirs, n)
            == rows_in(mc, dirs, n - 1),
{
    reveal_strlit("csrow");
    let name = dirs[n - 1].name@;
    assert(("csrow"@ + rest).take(5) =~= "csrow"@);
    if text::begins_with(name, "csrow"@) {
        assert(name.take(5)[0] == "csrow"@[0]);
    }
}

} // verus!
