//! The inspector's report as text, and what follows from it: is the database
//! healthy, and may a migration's leftovers be removed?

use crate::codegen::queries::{is_name_le, name_le};
use crate::codegen::text::{chars_of, decimal, hex, push_decimal, push_hex, push_number};
use crate::host::{rows_file_name, rows_name};
use crate::inspect::{InspectReport, LiveCopy, RowScan, SlotState, Verdict};
use crate::layout::{SB_COPIES, SCHEMA_HASH};
use crate::migration::V1_SCHEMA_HASH;
use vstd::prelude::*;
use vstd::string::*;

verus! {

pub open spec fn hex16(n: u64) -> Seq<char> {
    hex(n as nat, 16)
}

pub open spec fn spaces(n: int) -> Seq<char> {
    Seq::new(
        if n > 0 {
            n as nat
        } else {
            0
        },
        |i: int| ' ',
    )
}

fn push_spaces(o: &mut String, n: usize)
    ensures
        final(o)@ == old(o)@ + spaces(n as int),
{
    let mut i: usize = 0;
    assert(o@ =~= old(o)@ + spaces(0));
    while i < n
        invariant
            i <= n,
            o@ == old(o)@ + spaces(i as int),
        decreases n - i,
    {
        o.push(' ');
        assert(o@ =~= old(o)@ + spaces(i + 1));
        i = i + 1;
    }
}

// ---- Files ----

/// What a file of the directory is.
pub open spec fn role(name: Seq<char>) -> Seq<char> {
    if name == "superblock.dabq"@ {
        "superblock"@
    } else if name == rows_name(SCHEMA_HASH) {
        "rows (current schema)"@
    } else if name == rows_name(V1_SCHEMA_HASH) {
        "rows (legacy schema; inert once migrated)"@
    } else if name == "lock.dabq"@ {
        "single-writer lock (flock; empty by design)"@
    } else {
        "UNRECOGNIZED (orphan? not part of the declared file set)"@
    }
}

fn same_text(a: &str, b: &str) -> (yes: bool)
    ensures
        yes == (a@ == b@),
{
    crate::codegen::text::spells(chars_of(a).as_slice(), b)
}

fn role_of(name: &str) -> (r: &'static str)
    ensures
        r@ == role(name@),
{
    if same_text(name, "superblock.dabq") {
        "superblock"
    } else if same_text(name, rows_file_name(SCHEMA_HASH).as_str()) {
        "rows (current schema)"
    } else if same_text(name, rows_file_name(V1_SCHEMA_HASH).as_str()) {
        "rows (legacy schema; inert once migrated)"
    } else if same_text(name, "lock.dabq") {
        "single-writer lock (flock; empty by design)"
    } else {
        "UNRECOGNIZED (orphan? not part of the declared file set)"
    }
}

/// A file of the directory, its name as characters.
#[verifier::ext_equal]
pub struct FileView {
    pub name: Seq<char>,
    pub size: u64,
}

pub open spec fn files_view(files: Seq<(String, u64)>) -> Seq<FileView> {
    files.map_values(|f: (String, u64)| FileView { name: f.0@, size: f.1 })
}

/// A file of a database.
pub open spec fn belongs(name: Seq<char>) -> bool {
    name.len() >= 5 && name.skip(name.len() - 5) == ".dabq"@
}

fn is_database_file(name: &str) -> (yes: bool)
    ensures
        yes == belongs(name@),
{
    proof {
        reveal_strlit(".dabq");
    }
    let v = chars_of(name);
    if v.len() < 5 {
        return false;
    }
    let tail = vstd::slice::slice_subrange(v.as_slice(), v.len() - 5, v.len());
    assert(tail@ =~= name@.skip(name@.len() - 5));
    crate::codegen::text::spells(tail, ".dabq")
}

/// Where a file goes in a list by name.
pub open spec fn file_place(list: Seq<FileView>, f: FileView) -> int
    decreases list.len(),
{
    if list.len() == 0 || name_le(list.last().name, f.name) {
        list.len() as int
    } else {
        file_place(list.drop_last(), f)
    }
}

/// The database files among the first `n`, by name.
pub open spec fn by_name(files: Seq<FileView>, n: int) -> Seq<FileView>
    decreases n,
{
    if n <= 0 {
        Seq::empty()
    } else {
        let before = by_name(files, n - 1);
        let f = files[n - 1];
        if belongs(f.name) {
            before.insert(file_place(before, f), f)
        } else {
            before
        }
    }
}

/// The files that these indices pick.
spec fn files_at(files: Seq<FileView>, idx: Seq<usize>) -> Seq<FileView> {
    idx.map_values(|i: usize| files[i as int])
}

fn sort_files(files: &Vec<(String, u64)>) -> (idx: Vec<usize>)
    ensures
        files_at(files_view(files@), idx@) == by_name(files_view(files@), files@.len() as int),
        forall|j: int| 0 <= j < idx@.len() ==> (#[trigger] idx@[j]) < files@.len(),
{
    let ghost fs = files_view(files@);
    let mut idx: Vec<usize> = Vec::new();
    assert(files_at(fs, idx@) =~= Seq::empty());
    let mut n: usize = 0;
    while n < files.len()
        invariant
            n <= files@.len(),
            fs == files_view(files@),
            files_at(fs, idx@) == by_name(fs, n as int),
            forall|j: int| 0 <= j < idx@.len() ==> (#[trigger] idx@[j]) < files@.len(),
        decreases files@.len() - n,
    {
        let ghost f = fs[n as int];
        assert(f.name == files@[n as int].0@);
        if is_database_file(files[n].0.as_str()) {
            let name = chars_of(files[n].0.as_str());
            let ghost list = files_at(fs, idx@);
            let mut p: usize = idx.len();
            assert(list.take(p as int) =~= list);
            while p > 0 && !is_name_le(
                chars_of(files[idx[p - 1]].0.as_str()).as_slice(),
                name.as_slice(),
            )
                invariant
                    p <= idx@.len(),
                    n < files@.len(),
                    fs == files_view(files@),
                    list == files_at(fs, idx@),
                    f == fs[n as int],
                    name@ == f.name,
                    forall|j: int| 0 <= j < idx@.len() ==> (#[trigger] idx@[j]) < files@.len(),
                    file_place(list, f) == file_place(list.take(p as int), f),
                decreases p,
            {
                assert(list.take(p as int).drop_last() =~= list.take(p - 1));
                p = p - 1;
            }
            idx.insert(p, n);
            proof {
                assert(file_place(list, f) == p);
                assert(files_at(fs, idx@) =~= list.insert(p as int, f));
            }
        }
        n = n + 1;
    }
    idx
}

/// One line about a file: name and size in columns, and what it is.
pub open spec fn file_line(f: FileView) -> Seq<char> {
    let size = decimal(f.size as nat);
    "  "@ + f.name + spaces(28 - f.name.len()) + " "@ + spaces(8 - size.len()) + size + " B  "@
        + role(f.name) + "\n"@
}

pub open spec fn file_lines(files: Seq<FileView>, n: int) -> Seq<char>
    decreases n,
{
    if n <= 0 {
        Seq::empty()
    } else {
        file_lines(files, n - 1) + file_line(files[n - 1])
    }
}

fn digits(n: u64) -> (s: String)
    ensures
        s@ == decimal(n as nat),
{
    let mut s = String::new();
    push_number(&mut s, n);
    assert(s@ =~= decimal(n as nat));
    s
}

fn pad(have: usize, want: usize) -> (n: usize)
    ensures
        n == if have < want {
            want - have
        } else {
            0
        },
{
    if have < want {
        want - have
    } else {
        0
    }
}

fn push_file_line(o: &mut String, name: &str, size: u64)
    ensures
        final(o)@ == old(o)@ + file_line(FileView { name: name@, size }),
{
    let shown = digits(size);
    let wide: usize = chars_of(name).len();
    let long: usize = chars_of(shown.as_str()).len();
    o.append("  ");
    o.append(name);
    push_spaces(o, pad(wide, 28));
    assert(spaces(28 - name@.len()) =~= spaces(pad_of(name@.len() as int, 28)));
    o.append(" ");
    push_spaces(o, pad(long, 8));
    assert(spaces(8 - shown@.len()) =~= spaces(pad_of(shown@.len() as int, 8)));
    o.append(shown.as_str());
    o.append(" B  ");
    o.append(role_of(name));
    o.append("\n");
    assert(o@ =~= old(o)@ + file_line(FileView { name: name@, size }));
}

spec fn pad_of(have: int, want: int) -> int {
    if have < want {
        want - have
    } else {
        0
    }
}

/// The schemas, and the files of the directory.
pub open spec fn head_text(files: Seq<FileView>) -> Seq<char> {
    let list = by_name(files, files.len() as int);
    "dabqlite inspector\nbinary schema   0x"@ + hex16(SCHEMA_HASH) + "\nlegacy schema   0x"@
        + hex16(V1_SCHEMA_HASH) + " (migratable)\n\nfiles:\n"@ + file_lines(
        list,
        list.len() as int,
    ) + "\n"@
}

fn push_head(o: &mut String, files: &Vec<(String, u64)>)
    ensures
        final(o)@ == old(o)@ + head_text(files_view(files@)),
{
    let ghost fs = files_view(files@);
    o.append("dabqlite inspector\nbinary schema   0x");
    push_hex(o, SCHEMA_HASH, 16);
    o.append("\nlegacy schema   0x");
    push_hex(o, V1_SCHEMA_HASH, 16);
    o.append(" (migratable)\n\nfiles:\n");
    let ghost top = o@;
    let idx = sort_files(files);
    let ghost list = files_at(fs, idx@);
    assert(top + file_lines(list, 0) =~= top);
    let mut i: usize = 0;
    while i < idx.len()
        invariant
            i <= idx@.len(),
            fs == files_view(files@),
            list == files_at(fs, idx@),
            forall|j: int| 0 <= j < idx@.len() ==> (#[trigger] idx@[j]) < files@.len(),
            o@ == top + file_lines(list, i as int),
        decreases idx@.len() - i,
    {
        let f = &files[idx[i]];
        assert(list[i as int] == (FileView { name: f.0@, size: f.1 }));
        push_file_line(o, f.0.as_str(), f.1);
        assert(o@ =~= top + file_lines(list, i + 1));
        i = i + 1;
    }
    o.append("\n");
    assert(o@ =~= old(o)@ + head_text(fs));
}

// ---- Superblock slots ----

/// What is to be said of a valid copy.
pub open spec fn notes(schema: u64, in_home_pair: bool, live: bool) -> Seq<char> {
    (if in_home_pair {
        Seq::empty()
    } else {
        "  MISPLACED (misdirected write; distrusted)"@
    }) + (if schema == SCHEMA_HASH {
        Seq::empty()
    } else {
        "  foreign schema"@
    }) + (if live {
        "  <- LIVE"@
    } else {
        Seq::empty()
    })
}

pub open spec fn slot_line(i: int, slot: SlotState, live: Option<LiveCopy>) -> Seq<char> {
    let label = "  slot "@ + decimal(i as nat);
    match slot {
        SlotState::Missing => label + ": missing (file too short)\n"@,
        SlotState::Empty => label + ": empty (never written)\n"@,
        SlotState::Invalid => label + ": INVALID (torn write, bit rot, or garbage)\n"@,
        SlotState::Valid { generation, row_count, schema, in_home_pair } => label + ": gen "@
            + decimal(generation as nat) + ", rows "@ + decimal(row_count as nat) + ", schema 0x"@
            + hex16(schema) + notes(
            schema,
            in_home_pair,
            live is Some && (live->0).slot == i,
        ) + "\n"@,
    }
}

pub open spec fn slot_lines(slots: Seq<SlotState>, live: Option<LiveCopy>, n: int) -> Seq<char>
    decreases n,
{
    if n <= 0 {
        Seq::empty()
    } else {
        slot_lines(slots, live, n - 1) + slot_line(n - 1, slots[n - 1], live)
    }
}

fn push_notes(o: &mut String, schema: u64, in_home_pair: bool, live: bool)
    ensures
        final(o)@ == old(o)@ + notes(schema, in_home_pair, live),
{
    if !in_home_pair {
        o.append("  MISPLACED (misdirected write; distrusted)");
    }
    if schema != SCHEMA_HASH {
        o.append("  foreign schema");
    }
    if live {
        o.append("  <- LIVE");
    }
    assert(o@ =~= old(o)@ + notes(schema, in_home_pair, live));
}

#[verifier::spinoff_prover]
#[verifier::rlimit(60)]
fn push_slot_line(o: &mut String, i: usize, slot: SlotState, live: Option<LiveCopy>)
    ensures
        final(o)@ == old(o)@ + slot_line(i as int, slot, live),
{
    o.append("  slot ");
    push_decimal(o, i);
    match slot {
        SlotState::Missing => {
            o.append(": missing (file too short)\n");
        },
        SlotState::Empty => {
            o.append(": empty (never written)\n");
        },
        SlotState::Invalid => {
            o.append(": INVALID (torn write, bit rot, or garbage)\n");
        },
        SlotState::Valid { generation, row_count, schema, in_home_pair } => {
            o.append(": gen ");
            push_number(o, generation);
            o.append(", rows ");
            push_number(o, row_count);
            o.append(", schema 0x");
            push_hex(o, schema, 16);
            let here: bool = match live {
                Some(l) => l.slot as usize == i,
                None => false,
            };
            push_notes(o, schema, in_home_pair, here);
            o.append("\n");
        },
    }
    assert(o@ =~= old(o)@ + slot_line(i as int, slot, live));
}

pub open spec fn slots_text(slots: Seq<SlotState>, live: Option<LiveCopy>) -> Seq<char> {
    "superblock slots:\n"@ + slot_lines(slots, live, slots.len() as int) + "\n"@
}

fn push_slots(o: &mut String, slots: &[SlotState; SB_COPIES], live: Option<LiveCopy>)
    ensures
        final(o)@ == old(o)@ + slots_text(slots@, live),
{
    o.append("superblock slots:\n");
    let ghost top = o@;
    assert(top + slot_lines(slots@, live, 0) =~= top);
    let mut i: usize = 0;
    while i < 4
        invariant
            i <= 4,
            slots@.len() == 4,
            o@ == top + slot_lines(slots@, live, i as int),
        decreases 4 - i,
    {
        push_slot_line(o, i, slots[i], live);
        assert(o@ =~= top + slot_lines(slots@, live, i + 1));
        i = i + 1;
    }
    o.append("\n");
    assert(o@ =~= old(o)@ + slots_text(slots@, live));
}

// ---- Rows ----

/// One line per sample.
pub open spec fn sample_lines(label: Seq<char>, samples: Seq<u64>, n: int) -> Seq<char>
    decreases n,
{
    if n <= 0 {
        Seq::empty()
    } else {
        sample_lines(label, samples, n - 1) + (label + decimal(samples[n - 1] as nat) + "\n"@)
    }
}

fn push_samples(o: &mut String, label: &str, samples: &Vec<u64>)
    ensures
        final(o)@ == old(o)@ + sample_lines(label@, samples@, samples@.len() as int),
{
    let mut i: usize = 0;
    assert(o@ =~= old(o)@ + sample_lines(label@, samples@, 0));
    while i < samples.len()
        invariant
            i <= samples@.len(),
            o@ == old(o)@ + sample_lines(label@, samples@, i as int),
        decreases samples@.len() - i,
    {
        let ghost before = o@;
        o.append(label);
        push_number(o, samples[i]);
        o.append("\n");
        proof {
            assert(o@ =~= before + (label@ + decimal(samples@[i as int] as nat) + "\n"@));
            assert(o@ =~= old(o)@ + sample_lines(label@, samples@, i + 1));
        }
        i = i + 1;
    }
}

pub open spec fn committed_text(rows: RowScan) -> Seq<char> {
    "row zone:\n  committed valid    "@ + decimal(rows.committed_valid as nat)
        + "\n  committed corrupt  "@ + decimal(rows.committed_corrupt as nat) + "\n"@ + sample_lines(
        "    corrupt slot at byte offset "@,
        rows.corrupt_offsets@,
        rows.corrupt_offsets@.len() as int,
    ) + "  duplicate ids      "@ + decimal(rows.duplicate_ids as nat) + "\n"@ + sample_lines(
        "    duplicate id "@,
        rows.duplicate_samples@,
        rows.duplicate_samples@.len() as int,
    )
}

fn push_committed(o: &mut String, rows: &RowScan)
    ensures
        final(o)@ == old(o)@ + committed_text(*rows),
{
    o.append("row zone:\n  committed valid    ");
    push_number(o, rows.committed_valid);
    o.append("\n  committed corrupt  ");
    push_number(o, rows.committed_corrupt);
    o.append("\n");
    push_samples(o, "    corrupt slot at byte offset ", &rows.corrupt_offsets);
    o.append("  duplicate ids      ");
    push_number(o, rows.duplicate_ids);
    o.append("\n");
    push_samples(o, "    duplicate id ", &rows.duplicate_samples);
    assert(o@ =~= old(o)@ + committed_text(*rows));
}

pub open spec fn orphans_text(rows: RowScan, rollback_evidence: bool) -> Seq<char> {
    "  orphans (valid)    "@ + decimal(rows.orphan_valid as nat) + "\n  orphans (garbage)  "@
        + decimal(rows.orphan_invalid as nat) + "\n  rollback evidence  "@ + (
    if rollback_evidence {
        "YES - 2+ valid rows beyond the manifest: acknowledged commits were rolled back by an out-of-budget fault"@
    } else {
        "none"@
    }) + "\n\n"@
}

fn push_orphans(o: &mut String, rows: &RowScan, rollback_evidence: bool)
    ensures
        final(o)@ == old(o)@ + orphans_text(*rows, rollback_evidence),
{
    o.append("  orphans (valid)    ");
    push_number(o, rows.orphan_valid);
    o.append("\n  orphans (garbage)  ");
    push_number(o, rows.orphan_invalid);
    o.append("\n  rollback evidence  ");
    if rollback_evidence {
        o.append("YES - 2+ valid rows beyond the manifest: acknowledged commits were rolled back by an out-of-budget fault");
    } else {
        o.append("none");
    }
    o.append("\n\n");
    assert(o@ =~= old(o)@ + orphans_text(*rows, rollback_evidence));
}

// ---- Verdict ----

pub open spec fn verdict_text(verdict: Verdict) -> Seq<char> {
    match verdict {
        Verdict::FreshInit => "conclusion: empty - open would initialize fresh\n"@,
        Verdict::Recovers { rows } => "conclusion: healthy - open recovers "@ + decimal(rows as nat)
            + " rows\n"@,
        Verdict::SchemaMismatch { file_schema, migratable } => "conclusion: schema mismatch - file 0x"@
            + hex16(file_schema) + " vs binary 0x"@ + hex16(SCHEMA_HASH) + "\n"@ + (
        if migratable {
            "         this is the compiled-in legacy schema: run the migration\n"@
        } else {
            "         no migration path in this binary: safe brick, zero bytes touched\n"@
        }),
        Verdict::Corrupt { what } => "conclusion: CORRUPT - "@ + what@ + "\n"@,
    }
}

fn push_verdict(o: &mut String, verdict: Verdict)
    ensures
        final(o)@ == old(o)@ + verdict_text(verdict),
{
    match verdict {
        Verdict::FreshInit => {
            o.append("conclusion: empty - open would initialize fresh\n");
        },
        Verdict::Recovers { rows } => {
            o.append("conclusion: healthy - open recovers ");
            push_number(o, rows);
            o.append(" rows\n");
        },
        Verdict::SchemaMismatch { file_schema, migratable } => {
            o.append("conclusion: schema mismatch - file 0x");
            push_hex(o, file_schema, 16);
            o.append(" vs binary 0x");
            push_hex(o, SCHEMA_HASH, 16);
            o.append("\n");
            if migratable {
                o.append("         this is the compiled-in legacy schema: run the migration\n");
            } else {
                o.append("         no migration path in this binary: safe brick, zero bytes touched\n");
            }
        },
        Verdict::Corrupt { what } => {
            o.append("conclusion: CORRUPT - ");
            o.append(what);
            o.append("\n");
        },
    }
    assert(o@ =~= old(o)@ + verdict_text(verdict));
}

// ---- All of it ----

/// The whole report.
pub open spec fn whole_text(files: Seq<FileView>, report: InspectReport) -> Seq<char> {
    head_text(files) + slots_text(report.slots@, report.live) + committed_text(report.rows)
        + orphans_text(report.rows, report.rollback_evidence) + verdict_text(report.verdict)
}

/// The report as text, over the names and sizes of the directory's files. File
/// names, never paths: the same database gives the same text.
pub fn report_text(files: &Vec<(String, u64)>, report: &InspectReport) -> (o: String)
    ensures
        o@ == whole_text(files_view(files@), *report),
{
    let mut o = String::new();
    push_head(&mut o, files);
    push_slots(&mut o, &report.slots, report.live);
    push_committed(&mut o, &report.rows);
    push_orphans(&mut o, &report.rows, report.rollback_evidence);
    push_verdict(&mut o, report.verdict);
    assert(o@ =~= whole_text(files_view(files@), *report));
    o
}

/// The report gives no cause for alarm.
pub open spec fn is_healthy(report: InspectReport) -> bool {
    (report.verdict is FreshInit || report.verdict is Recovers) && !report.rollback_evidence
}

/// The directory would open cleanly, and nothing acknowledged was lost.
pub fn healthy(report: &InspectReport) -> (yes: bool)
    ensures
        yes == is_healthy(*report),
        yes == ((report.verdict is FreshInit || report.verdict is Recovers)
            && !report.rollback_evidence),
{
    match report.verdict {
        Verdict::FreshInit | Verdict::Recovers { .. } => !report.rollback_evidence,
        _ => false,
    }
}

/// Why the legacy rows file must stay.
#[derive(Debug, Clone, Copy, PartialEq, Eq)]
pub enum Keep {
    /// The directory does not recover cleanly: the legacy file may still be the
    /// only copy of the data.
    Unrecoverable { verdict: Verdict },
    /// The live superblock is of another schema: the legacy file is live data.
    Foreign { schema: u64 },
}

/// The report shows that the legacy rows file is no longer needed.
pub open spec fn is_reclaimable(report: InspectReport) -> bool {
    &&& report.verdict is Recovers
    &&& report.live is Some
    &&& (report.live->0).schema == SCHEMA_HASH
}

/// May the legacy rows file be removed? Only once the superblock names the
/// current schema and recovery would succeed.
pub fn may_reclaim(report: &InspectReport) -> (res: Result<(), Keep>)
    ensures
        res is Ok <==> is_reclaimable(*report),
        match report.live {
            Some(live) => if !(report.verdict is Recovers) {
                res == Err::<(), Keep>(Keep::Unrecoverable { verdict: report.verdict })
            } else if live.schema != SCHEMA_HASH {
                res == Err::<(), Keep>(Keep::Foreign { schema: live.schema })
            } else {
                res is Ok
            },
            None => res == Err::<(), Keep>(Keep::Unrecoverable { verdict: report.verdict }),
        },
{
    match report.live {
        Some(live) => match report.verdict {
            Verdict::Recovers { .. } => if live.schema != SCHEMA_HASH {
                Err(Keep::Foreign { schema: live.schema })
            } else {
                Ok(())
            },
            verdict => Err(Keep::Unrecoverable { verdict }),
        },
        None => Err(Keep::Unrecoverable { verdict: report.verdict }),
    }
}

} // verus!
