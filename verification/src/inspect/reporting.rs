//! What the inspector's report says: every number that was found, on a line of
//! its own, under its own name.

use crate::codegen::generating::{behind, holds, in_front, itself};
use crate::codegen::laws::{names_total, names_transitive};
use crate::codegen::queries::name_le;
use crate::codegen::text::{decimal, hex};
use crate::inspect::report::{
    belongs, by_name, committed_text, file_line, file_lines, file_place, head_text, orphans_text,
    sample_lines, slot_line, slot_lines, slots_text, verdict_text, whole_text, FileView,
};
use crate::inspect::{InspectReport, RowScan, SlotState, Verdict};
use crate::layout::SCHEMA_HASH;
use vstd::prelude::*;

verus! {

/// A number under its name, on a line of its own.
pub open spec fn number_line(label: Seq<char>, n: u64) -> Seq<char> {
    label + decimal(n as nat) + "\n"@
}

/// What holds of a part holds of the whole: the five parts of a report.
proof fn part_holds(files: Seq<FileView>, report: InspectReport, piece: Seq<char>)
    requires
        ({
            ||| holds(head_text(files), piece)
            ||| holds(slots_text(report.slots@, report.live), piece)
            ||| holds(committed_text(report.rows), piece)
            ||| holds(orphans_text(report.rows, report.rollback_evidence), piece)
            ||| holds(verdict_text(report.verdict), piece)
        }),
    ensures
        holds(whole_text(files, report), piece),
{
    let a = head_text(files);
    let b = slots_text(report.slots@, report.live);
    let c = committed_text(report.rows);
    let d = orphans_text(report.rows, report.rollback_evidence);
    let e = verdict_text(report.verdict);
    if holds(e, piece) {
        behind(a + b + c + d, e, piece);
    } else {
        if holds(d, piece) {
            behind(a + b + c, d, piece);
        } else {
            if holds(c, piece) {
                behind(a + b, c, piece);
            } else {
                if holds(b, piece) {
                    behind(a, b, piece);
                } else {
                    in_front(a, b, piece);
                }
                in_front(a + b, c, piece);
            }
            in_front(a + b + c, d, piece);
        }
        in_front(a + b + c + d, e, piece);
    }
}

proof fn sample_is_held(label: Seq<char>, samples: Seq<u64>, n: int, i: int)
    requires
        0 <= i < n <= samples.len(),
    ensures
        holds(sample_lines(label, samples, n), number_line(label, samples[i])),
    decreases n,
{
    let line = number_line(label, samples[i]);
    let last = label + decimal(samples[n - 1] as nat) + "\n"@;
    if i == n - 1 {
        itself(line);
        behind(sample_lines(label, samples, n - 1), last, line);
    } else {
        sample_is_held(label, samples, n - 1, i);
        in_front(sample_lines(label, samples, n - 1), last, line);
    }
}

/// The lines about committed rows.
#[verifier::spinoff_prover]
#[verifier::rlimit(40)]
proof fn committed_lines(rows: RowScan)
    ensures
        ({
            let x = sample_lines(
                "    corrupt slot at byte offset "@,
                rows.corrupt_offsets@,
                rows.corrupt_offsets@.len() as int,
            );
            let y = sample_lines(
                "    duplicate id "@,
                rows.duplicate_samples@,
                rows.duplicate_samples@.len() as int,
            );
            committed_text(rows) == "row zone:\n"@ + number_line(
                "  committed valid    "@,
                rows.committed_valid,
            ) + number_line("  committed corrupt  "@, rows.committed_corrupt) + x + number_line(
                "  duplicate ids      "@,
                rows.duplicate_ids,
            ) + y
        }),
{
    let nl = "\n"@;
    reveal_strlit("\n");
    reveal_strlit("row zone:\n  committed valid    ");
    reveal_strlit("row zone:\n");
    reveal_strlit("  committed valid    ");
    reveal_strlit("\n  committed corrupt  ");
    reveal_strlit("  committed corrupt  ");
    assert("row zone:\n  committed valid    "@ =~= "row zone:\n"@ + "  committed valid    "@);
    assert("\n  committed corrupt  "@ =~= nl + "  committed corrupt  "@);
    let a = "row zone:\n"@ + number_line("  committed valid    "@, rows.committed_valid);
    let b = a + number_line("  committed corrupt  "@, rows.committed_corrupt);
    let c = "row zone:\n  committed valid    "@ + decimal(rows.committed_valid as nat)
        + "\n  committed corrupt  "@ + decimal(rows.committed_corrupt as nat) + nl;
    assert(b =~= c);
    let x = sample_lines(
        "    corrupt slot at byte offset "@,
        rows.corrupt_offsets@,
        rows.corrupt_offsets@.len() as int,
    );
    let r = number_line("  duplicate ids      "@, rows.duplicate_ids);
    assert(c + x + r =~= c + x + "  duplicate ids      "@ + decimal(rows.duplicate_ids as nat)
        + nl);
}

/// The lines about the slots past them.
#[verifier::spinoff_prover]
#[verifier::rlimit(40)]
proof fn orphan_lines(rows: RowScan, rollback: bool)
    ensures
        orphans_text(rows, rollback) == number_line("  orphans (valid)    "@, rows.orphan_valid)
            + number_line("  orphans (garbage)  "@, rows.orphan_invalid) + rollback_line(rollback)
            + "\n"@,
{
    let nl = "\n"@;
    reveal_strlit("\n");
    reveal_strlit("\n  orphans (garbage)  ");
    reveal_strlit("  orphans (garbage)  ");
    reveal_strlit("\n  rollback evidence  ");
    reveal_strlit("  rollback evidence  ");
    reveal_strlit("\n\n");
    assert("\n  orphans (garbage)  "@ =~= nl + "  orphans (garbage)  "@);
    assert("\n  rollback evidence  "@ =~= nl + "  rollback evidence  "@);
    assert("\n\n"@ =~= nl + nl);
    let says = if rollback {
        "YES - 2+ valid rows beyond the manifest: acknowledged commits were rolled back by an out-of-budget fault"@
    } else {
        "none"@
    };
    if rollback {
        reveal_strlit("YES - 2+ valid rows beyond the manifest: acknowledged commits were rolled back by an out-of-budget fault");
        reveal_strlit("  rollback evidence  YES - 2+ valid rows beyond the manifest: acknowledged commits were rolled back by an out-of-budget fault\n");
    } else {
        reveal_strlit("none");
        reveal_strlit("  rollback evidence  none\n");
    }
    assert(rollback_line(rollback) =~= "  rollback evidence  "@ + says + nl);
    let s = number_line("  orphans (valid)    "@, rows.orphan_valid);
    let t = number_line("  orphans (garbage)  "@, rows.orphan_invalid);
    let a = "  orphans (valid)    "@ + decimal(rows.orphan_valid as nat)
        + "\n  orphans (garbage)  "@ + decimal(rows.orphan_invalid as nat);
    assert(s + t =~= a + nl);
    let b = a + "\n  rollback evidence  "@ + says;
    assert(s + t + rollback_line(rollback) =~= b + nl);
    assert(b + nl + nl =~= b + "\n\n"@);
}

/// Whether acknowledged commits were taken back.
pub open spec fn rollback_line(rollback: bool) -> Seq<char> {
    if rollback {
        "  rollback evidence  YES - 2+ valid rows beyond the manifest: acknowledged commits were rolled back by an out-of-budget fault\n"@
    } else {
        "  rollback evidence  none\n"@
    }
}

/// The report has the numbers of the row scan, each under its own name.
pub proof fn the_report_has_every_number(files: Seq<FileView>, report: InspectReport)
    ensures
        ({
            let text = whole_text(files, report);
            let rows = report.rows;
            &&& holds(text, number_line("  committed valid    "@, rows.committed_valid))
            &&& holds(text, number_line("  committed corrupt  "@, rows.committed_corrupt))
            &&& holds(text, number_line("  duplicate ids      "@, rows.duplicate_ids))
            &&& holds(text, number_line("  orphans (valid)    "@, rows.orphan_valid))
            &&& holds(text, number_line("  orphans (garbage)  "@, rows.orphan_invalid))
            &&& holds(text, rollback_line(report.rollback_evidence))
        }),
{
    let rows = report.rows;
    let zone = "row zone:\n"@;
    let p = number_line("  committed valid    "@, rows.committed_valid);
    let q = number_line("  committed corrupt  "@, rows.committed_corrupt);
    let r = number_line("  duplicate ids      "@, rows.duplicate_ids);
    let x = sample_lines(
        "    corrupt slot at byte offset "@,
        rows.corrupt_offsets@,
        rows.corrupt_offsets@.len() as int,
    );
    let y = sample_lines(
        "    duplicate id "@,
        rows.duplicate_samples@,
        rows.duplicate_samples@.len() as int,
    );
    committed_lines(rows);
    itself(p);
    itself(q);
    itself(r);
    behind(zone, p, p);
    in_front(zone + p, q, p);
    in_front(zone + p + q, x, p);
    in_front(zone + p + q + x, r, p);
    in_front(zone + p + q + x + r, y, p);
    part_holds(files, report, p);
    behind(zone + p, q, q);
    in_front(zone + p + q, x, q);
    in_front(zone + p + q + x, r, q);
    in_front(zone + p + q + x + r, y, q);
    part_holds(files, report, q);
    behind(zone + p + q + x, r, r);
    in_front(zone + p + q + x + r, y, r);
    part_holds(files, report, r);

    let nl = "\n"@;
    let s = number_line("  orphans (valid)    "@, rows.orphan_valid);
    let t = number_line("  orphans (garbage)  "@, rows.orphan_invalid);
    let u = rollback_line(report.rollback_evidence);
    orphan_lines(rows, report.rollback_evidence);
    itself(s);
    itself(t);
    itself(u);
    in_front(s, t, s);
    in_front(s + t, u, s);
    in_front(s + t + u, nl, s);
    part_holds(files, report, s);
    behind(s, t, t);
    in_front(s + t, u, t);
    in_front(s + t + u, nl, t);
    part_holds(files, report, t);
    behind(s + t, u, u);
    in_front(s + t + u, nl, u);
    part_holds(files, report, u);
}

/// The report has a line for every sample: where a row cannot be read, and which
/// id is there twice.
pub proof fn the_report_has_every_sample(files: Seq<FileView>, report: InspectReport, i: int)
    ensures
        ({
            let text = whole_text(files, report);
            let rows = report.rows;
            &&& 0 <= i < rows.corrupt_offsets@.len() ==> holds(
                text,
                number_line("    corrupt slot at byte offset "@, rows.corrupt_offsets@[i]),
            )
            &&& 0 <= i < rows.duplicate_samples@.len() ==> holds(
                text,
                number_line("    duplicate id "@, rows.duplicate_samples@[i]),
            )
        }),
{
    let rows = report.rows;
    let a = "row zone:\n  committed valid    "@ + decimal(rows.committed_valid as nat)
        + "\n  committed corrupt  "@ + decimal(rows.committed_corrupt as nat) + "\n"@;
    let x = sample_lines(
        "    corrupt slot at byte offset "@,
        rows.corrupt_offsets@,
        rows.corrupt_offsets@.len() as int,
    );
    let b = a + x + "  duplicate ids      "@ + decimal(rows.duplicate_ids as nat) + "\n"@;
    let y = sample_lines(
        "    duplicate id "@,
        rows.duplicate_samples@,
        rows.duplicate_samples@.len() as int,
    );
    assert(committed_text(rows) == b + y);
    if 0 <= i < rows.corrupt_offsets@.len() {
        let line = number_line("    corrupt slot at byte offset "@, rows.corrupt_offsets@[i]);
        sample_is_held(
            "    corrupt slot at byte offset "@,
            rows.corrupt_offsets@,
            rows.corrupt_offsets@.len() as int,
            i,
        );
        behind(a, x, line);
        in_front(a + x, "  duplicate ids      "@, line);
        in_front(a + x + "  duplicate ids      "@, decimal(rows.duplicate_ids as nat), line);
        in_front(
            a + x + "  duplicate ids      "@ + decimal(rows.duplicate_ids as nat),
            "\n"@,
            line,
        );
        in_front(b, y, line);
        part_holds(files, report, line);
    }
    if 0 <= i < rows.duplicate_samples@.len() {
        let line = number_line("    duplicate id "@, rows.duplicate_samples@[i]);
        sample_is_held(
            "    duplicate id "@,
            rows.duplicate_samples@,
            rows.duplicate_samples@.len() as int,
            i,
        );
        behind(b, y, line);
        part_holds(files, report, line);
    }
}

// ---- Superblock slots ----

/// What the report says of a superblock slot: what it is; of a valid copy its
/// numbers, whether it is misplaced, of another schema, and the live one.
pub open spec fn slot_says(i: int, slot: SlotState, live: bool) -> Seq<char> {
    "  slot "@ + decimal(i as nat) + match slot {
        SlotState::Missing => ": missing (file too short)\n"@,
        SlotState::Empty => ": empty (never written)\n"@,
        SlotState::Invalid => ": INVALID (torn write, bit rot, or garbage)\n"@,
        SlotState::Valid { generation, row_count, schema, in_home_pair } => ": gen "@ + decimal(
            generation as nat,
        ) + ", rows "@ + decimal(row_count as nat) + ", schema 0x"@ + hex(schema as nat, 16) + (
        if in_home_pair {
            Seq::<char>::empty()
        } else {
            "  MISPLACED (misdirected write; distrusted)"@
        }) + (if schema == SCHEMA_HASH {
            Seq::<char>::empty()
        } else {
            "  foreign schema"@
        }) + (if live {
            "  <- LIVE"@
        } else {
            Seq::<char>::empty()
        }) + "\n"@,
    }
}

proof fn slot_is_held(report: InspectReport, n: int, i: int)
    requires
        0 <= i < n <= report.slots@.len(),
    ensures
        holds(
            slot_lines(report.slots@, report.live, n),
            slot_line(i, report.slots@[i], report.live),
        ),
    decreases n,
{
    let slots = report.slots@;
    let line = slot_line(i, slots[i], report.live);
    let last = slot_line(n - 1, slots[n - 1], report.live);
    if i == n - 1 {
        itself(line);
        behind(slot_lines(slots, report.live, n - 1), last, line);
    } else {
        slot_is_held(report, n - 1, i);
        in_front(slot_lines(slots, report.live, n - 1), last, line);
    }
}

/// The report has a line for every superblock slot.
pub proof fn the_report_has_every_slot(files: Seq<FileView>, report: InspectReport, i: int)
    requires
        0 <= i < 4,
    ensures
        holds(
            whole_text(files, report),
            slot_says(
                i,
                report.slots@[i],
                report.live is Some && (report.live->0).slot == i,
            ),
        ),
{
    let live = report.live is Some && (report.live->0).slot == i;
    let line = slot_line(i, report.slots@[i], report.live);
    assert(line =~= slot_says(i, report.slots@[i], live));
    slot_is_held(report, 4, i);
    behind("superblock slots:\n"@, slot_lines(report.slots@, report.live, 4), line);
    in_front(
        "superblock slots:\n"@ + slot_lines(report.slots@, report.live, 4),
        "\n"@,
        line,
    );
    part_holds(files, report, line);
}

// ---- The end of it ----

/// The report ends with what an open would do: begin afresh, recover the rows,
/// or refuse the files, and why.
pub proof fn the_report_ends_with_its_finding(files: Seq<FileView>, report: InspectReport)
    ensures
        ({
            let text = whole_text(files, report);
            match report.verdict {
                Verdict::FreshInit => holds(text, "empty - open would initialize fresh\n"@),
                Verdict::Recovers { rows } => holds(
                    text,
                    "healthy - open recovers "@ + decimal(rows as nat) + " rows\n"@,
                ),
                Verdict::SchemaMismatch { file_schema, migratable } => holds(
                    text,
                    "schema mismatch - file 0x"@ + hex(file_schema as nat, 16) + " vs binary 0x"@
                        + hex(SCHEMA_HASH as nat, 16) + "\n"@ + (if migratable {
                        "         this is the compiled-in legacy schema: run the migration\n"@
                    } else {
                        "         no migration path in this binary: safe brick, zero bytes touched\n"@
                    }),
                ),
                Verdict::Corrupt { what } => holds(text, "CORRUPT - "@ + what@ + "\n"@),
            }
        }),
{
    let label = "conclusion: "@;
    reveal_strlit("conclusion: ");
    let piece = match report.verdict {
        Verdict::FreshInit => {
            reveal_strlit("conclusion: empty - open would initialize fresh\n");
            reveal_strlit("empty - open would initialize fresh\n");
            "empty - open would initialize fresh\n"@
        },
        Verdict::Recovers { rows } => {
            reveal_strlit("conclusion: healthy - open recovers ");
            reveal_strlit("healthy - open recovers ");
            assert("conclusion: healthy - open recovers "@ =~= label
                + "healthy - open recovers "@);
            "healthy - open recovers "@ + decimal(rows as nat) + " rows\n"@
        },
        Verdict::SchemaMismatch { file_schema, migratable } => {
            reveal_strlit("conclusion: schema mismatch - file 0x");
            reveal_strlit("schema mismatch - file 0x");
            assert("conclusion: schema mismatch - file 0x"@ =~= label
                + "schema mismatch - file 0x"@);
            "schema mismatch - file 0x"@ + hex(file_schema as nat, 16) + " vs binary 0x"@ + hex(
                SCHEMA_HASH as nat,
                16,
            ) + "\n"@ + (if migratable {
                "         this is the compiled-in legacy schema: run the migration\n"@
            } else {
                "         no migration path in this binary: safe brick, zero bytes touched\n"@
            })
        },
        Verdict::Corrupt { what } => {
            reveal_strlit("conclusion: CORRUPT - ");
            reveal_strlit("CORRUPT - ");
            assert("conclusion: CORRUPT - "@ =~= label + "CORRUPT - "@);
            "CORRUPT - "@ + what@ + "\n"@
        },
    };
    assert(verdict_text(report.verdict) =~= label + piece);
    itself(piece);
    behind(label, piece, piece);
    part_holds(files, report, piece);
}

// ---- Files ----

proof fn place_is_right(list: Seq<FileView>, f: FileView)
    requires
        listed_by_name(list),
    ensures
        0 <= file_place(list, f) <= list.len(),
        forall|i: int| 0 <= i < file_place(list, f) ==> name_le((#[trigger] list[i]).name, f.name),
        forall|i: int|
            file_place(list, f) <= i < list.len() ==> name_le(f.name, (#[trigger] list[i]).name),
    decreases list.len(),
{
    if list.len() > 0 {
        let last = list.last();
        if name_le(last.name, f.name) {
            assert forall|i: int| 0 <= i < list.len() implies name_le(
                (#[trigger] list[i]).name,
                f.name,
            ) by {
                if i < list.len() - 1 {
                    names_transitive(list[i].name, last.name, f.name);
                }
            }
        } else {
            let rest = list.drop_last();
            place_is_right(rest, f);
            names_total(last.name, f.name);
            assert forall|i: int| 0 <= i < file_place(list, f) implies name_le(
                (#[trigger] list[i]).name,
                f.name,
            ) by {
                assert(rest[i] == list[i]);
            }
            assert forall|i: int| file_place(list, f) <= i < list.len() implies name_le(
                f.name,
                (#[trigger] list[i]).name,
            ) by {
                if i < list.len() - 1 {
                    assert(rest[i] == list[i]);
                }
            }
        }
    }
}

/// The files come by name.
pub open spec fn listed_by_name(list: Seq<FileView>) -> bool {
    forall|i: int, j: int|
        0 <= i < j < list.len() ==> name_le((#[trigger] list[i]).name, (#[trigger] list[j]).name)
}

proof fn files_are_sorted(files: Seq<FileView>, n: int)
    requires
        0 <= n <= files.len(),
    ensures
        listed_by_name(by_name(files, n)),
        forall|f: FileView| #[trigger]
            by_name(files, n).contains(f) <==> belongs(f.name) && files.take(n).contains(f),
    decreases n,
{
    if n > 0 {
        files_are_sorted(files, n - 1);
        let before = by_name(files, n - 1);
        let f = files[n - 1];
        let after = by_name(files, n);
        let front = files.take(n);
        assert(front =~= files.take(n - 1).push(f));
        if belongs(f.name) {
            let p = file_place(before, f);
            place_is_right(before, f);
            assert forall|i: int, j: int| 0 <= i < j < after.len() implies name_le(
                (#[trigger] after[i]).name,
                (#[trigger] after[j]).name,
            ) by {
                if i != p && j != p {
                    let x = if i < p {
                        i
                    } else {
                        i - 1
                    };
                    let y = if j < p {
                        j
                    } else {
                        j - 1
                    };
                    assert(before[x] == after[i] && before[y] == after[j]);
                } else if i == p {
                    assert(before[j - 1] == after[j]);
                } else {
                    assert(before[i] == after[i]);
                }
            }
        }
        assert forall|g: FileView| #[trigger]
            after.contains(g) <==> belongs(g.name) && front.contains(g) by {
            if before.contains(g) {
                let i = choose|i: int| 0 <= i < before.len() && before[i] == g;
                if belongs(f.name) {
                    let p = file_place(before, f);
                    assert(after[if i < p {
                        i
                    } else {
                        i + 1
                    }] == g);
                }
                let earlier = files.take(n - 1);
                let k = choose|k: int| 0 <= k < earlier.len() && earlier[k] == g;
                assert(front[k] == g);
            }
            if g == f && belongs(f.name) {
                place_is_right(before, f);
                assert(after[file_place(before, f)] == f);
                assert(front[n - 1] == f);
            }
            if after.contains(g) && g != f {
                let i = choose|i: int| 0 <= i < after.len() && after[i] == g;
                if belongs(f.name) {
                    let p = file_place(before, f);
                    place_is_right(before, f);
                    assert(before[if i < p {
                        i
                    } else {
                        i - 1
                    }] == g);
                }
                assert(before.contains(g));
            }
            if front.contains(g) && g != f {
                let k = choose|k: int| 0 <= k < n && front[k] == g;
                assert(files.take(n - 1)[k] == g);
            }
        }
    } else {
        assert(files.take(0) =~= Seq::<FileView>::empty());
    }
}

proof fn file_is_held(list: Seq<FileView>, n: int, i: int)
    requires
        0 <= i < n <= list.len(),
    ensures
        holds(file_lines(list, n), file_line(list[i])),
    decreases n,
{
    let line = file_line(list[i]);
    if i == n - 1 {
        itself(line);
        behind(file_lines(list, n - 1), line, line);
    } else {
        file_is_held(list, n - 1, i);
        in_front(file_lines(list, n - 1), file_line(list[n - 1]), line);
    }
}

/// The report has a line for every file that belongs to a database, whatever
/// order the directory came in; and lists those files by name, and no others.
pub proof fn the_report_has_every_file(files: Seq<FileView>, report: InspectReport, f: FileView)
    requires
        files.contains(f),
    ensures
        ({
            let list = by_name(files, files.len() as int);
            &&& listed_by_name(list)
            &&& list.contains(f) <==> belongs(f.name)
            &&& belongs(f.name) ==> holds(whole_text(files, report), file_line(f))
        }),
{
    let n = files.len() as int;
    files_are_sorted(files, n);
    assert(files.take(n) =~= files);
    let list = by_name(files, n);
    assert(list.contains(f) <==> belongs(f.name));
    if belongs(f.name) {
        let i = choose|i: int| 0 <= i < list.len() && list[i] == f;
        file_is_held(list, list.len() as int, i);
        let a = "dabqlite inspector\nbinary schema   0x"@ + hex(SCHEMA_HASH as nat, 16)
            + "\nlegacy schema   0x"@ + hex(crate::migration::V1_SCHEMA_HASH as nat, 16)
            + " (migratable)\n\nfiles:\n"@;
        let m = file_lines(list, list.len() as int);
        behind(a, m, file_line(f));
        in_front(a + m, "\n"@, file_line(f));
        part_holds(files, report, file_line(f));
    }
}

} // verus!
