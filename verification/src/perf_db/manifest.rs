//! The description that goes with the recorded tables.

use crate::lines::{
    begins_with, free_of, has_prefix, join_texts, joined, lemma_joined_split, push_text,
    split_str, split_text, texts, trim_from, trimmed,
};
use crate::text::{chars_of, decimal, is_digit, lemma_decimal, unsigned_text};
use vstd::prelude::*;

verus! {

/// The version of the layout of the tables.
pub const SCHEMA_VERSION: u32 = 1;

/// What the line with the name of the GPU begins with.
pub open spec fn gpu_prefix() -> Seq<char> {
    "- **GPU:** "@
}

/// The lines of the description of a database with so many entries.
pub open spec fn manifest_lines(
    gpu_name: Seq<char>,
    compute: nat,
    sequence: nat,
    memcpy: nat,
    flash_attn: nat,
) -> Seq<Seq<char>> {
    seq![
        "# Phantora performance database"@,
        ""@,
        gpu_prefix() + gpu_name,
        "- **Schema version:** "@ + decimal(SCHEMA_VERSION as nat),
        "- **compute entries:** "@ + decimal(compute),
        "- **sequence entries:** "@ + decimal(sequence),
        "- **memcpy entries:** "@ + decimal(memcpy),
        "- **flash_attn entries:** "@ + decimal(flash_attn),
        ""@,
        "Recorded with `--record-perf-db <dir>`. Replay with `--perf-db <dir>` "@
            + "(no GPU required). Each `*.csv` is one timing table (values in nanoseconds); "@
            + "the `compute.csv` `key` is the `TorchCallInfo` as compacted JSON (tensors as "@
            + "`[code,[dims]]`, repeated-tensor lists as `{\"R\":[k,[period]]}`)."@,
        ""@,
    ]
}

/// The description of a database with so many entries.
pub open spec fn manifest_text(
    gpu_name: Seq<char>,
    compute: nat,
    sequence: nat,
    memcpy: nat,
    flash_attn: nat,
) -> Seq<char> {
    joined(manifest_lines(gpu_name, compute, sequence, memcpy, flash_attn), '\n')
}

/// The name of the GPU in the first `n` lines of a description: the last one that is
/// given, or none.
pub open spec fn gpu_in(lines: Seq<Seq<char>>, n: int) -> Seq<char>
    decreases n,
{
    if n <= 0 {
        seq![]
    } else if begins_with(lines[n - 1], gpu_prefix()) {
        trimmed(lines[n - 1].skip(gpu_prefix().len() as int))
    } else {
        gpu_in(lines, n - 1)
    }
}

/// The name of the GPU in a description.
pub open spec fn manifest_gpu(text: Seq<char>) -> Seq<char> {
    let lines = split_text(text, '\n');
    gpu_in(lines, lines.len() as int)
}

/// The name of the GPU in a description.
pub fn read_manifest(text: &str) -> (name: String)
    ensures
        name@ == manifest_gpu(text@),
{
    let lines = split_str(text, '\n');
    let ghost all = texts(lines@);
    proof {
        reveal_strlit("- **GPU:** ");
    }
    let mut name = String::new();
    let mut i: usize = 0;
    assert(name@ =~= gpu_in(all, 0));
    while i < lines.len()
        invariant
            i <= lines@.len(),
            all == texts(lines@),
            gpu_prefix().len() == 11,
            name@ == gpu_in(all, i as int),
        decreases lines@.len() - i,
    {
        let v = chars_of(lines[i].as_str());
        assert(all[i as int] == v@);
        if has_prefix(&v, "- **GPU:** ") {
            name = trim_from(&v, 11);
        }
        i += 1;
    }
    name
}

fn entry_line(label: &str, n: usize) -> (s: String)
    ensures
        s@ == label@ + decimal(n as nat),
{
    let mut s = String::new();
    push_text(&mut s, label);
    let digits = unsigned_text(n as u64);
    push_text(&mut s, digits.as_str());
    assert(s@ =~= label@ + decimal(n as nat));
    s
}

/// Writes the description of a database with so many entries.
pub fn write_manifest(
    gpu_name: &str,
    compute: usize,
    sequence: usize,
    memcpy: usize,
    flash_attn: usize,
) -> (s: String)
    ensures
        s@ == manifest_text(
            gpu_name@,
            compute as nat,
            sequence as nat,
            memcpy as nat,
            flash_attn as nat,
        ),
{
    let mut lines: Vec<String> = Vec::new();
    lines.push("# Phantora performance database".to_owned());
    lines.push("".to_owned());
    let mut gpu = String::new();
    push_text(&mut gpu, "- **GPU:** ");
    push_text(&mut gpu, gpu_name);
    assert(gpu@ =~= gpu_prefix() + gpu_name@);
    lines.push(gpu);
    lines.push(entry_line("- **Schema version:** ", SCHEMA_VERSION as usize));
    lines.push(entry_line("- **compute entries:** ", compute));
    lines.push(entry_line("- **sequence entries:** ", sequence));
    lines.push(entry_line("- **memcpy entries:** ", memcpy));
    lines.push(entry_line("- **flash_attn entries:** ", flash_attn));
    lines.push("".to_owned());
    let mut about = String::new();
    push_text(&mut about, "Recorded with `--record-perf-db <dir>`. Replay with `--perf-db <dir>` ");
    push_text(
        &mut about,
        "(no GPU required). Each `*.csv` is one timing table (values in nanoseconds); ",
    );
    push_text(
        &mut about,
        "the `compute.csv` `key` is the `TorchCallInfo` as compacted JSON (tensors as ",
    );
    push_text(
        &mut about,
        "`[code,[dims]]`, repeated-tensor lists as `{\"R\":[k,[period]]}`).",
    );
    let ghost all = manifest_lines(
        gpu_name@,
        compute as nat,
        sequence as nat,
        memcpy as nat,
        flash_attn as nat,
    );
    assert(about@ =~= all[9]);
    lines.push(about);
    lines.push("".to_owned());
    assert(texts(lines@) =~= all);
    join_texts(&lines, '\n')
}

/// Whether no line ends in a text from a place on.
spec fn one_line(s: Seq<char>, i: int) -> bool
    decreases s.len() - i,
{
    i < 0 || i >= s.len() || (s[i] != '\n' && one_line(s, i + 1))
}

proof fn lemma_one_line(s: Seq<char>, i: int)
    requires
        0 <= i <= s.len(),
        one_line(s, i),
    ensures
        forall|j: int| i <= j < s.len() ==> #[trigger] s[j] != '\n',
    decreases s.len() - i,
{
    if i < s.len() {
        lemma_one_line(s, i + 1);
    }
}

#[verifier::spinoff_prover]
proof fn lemma_about_0()
    ensures
        free_of("Recorded with `--record-perf-db <dir>`. Replay with `--perf-db <dir>` "@, '\n'),
        "Recorded with `--record-perf-db <dir>`. Replay with `--perf-db <dir>` "@.len() > 4,
        "Recorded with `--record-perf-db <dir>`. Replay with `--perf-db <dir>` "@[4] == 'r',
{
    let s = "Recorded with `--record-perf-db <dir>`. Replay with `--perf-db <dir>` "@;
    reveal_strlit("Recorded with `--record-perf-db <dir>`. Replay with `--perf-db <dir>` ");
    reveal_with_fuel(one_line, 72);
    assert(one_line(s, 0));
    lemma_one_line(s, 0);
}

#[verifier::spinoff_prover]
proof fn lemma_about_1()
    ensures
        free_of("(no GPU required). Each `*.csv` is one timing table (values in nanoseconds); "@, '\n'),
{
    let s = "(no GPU required). Each `*.csv` is one timing table (values in nanoseconds); "@;
    reveal_strlit("(no GPU required). Each `*.csv` is one timing table (values in nanoseconds); ");
    reveal_with_fuel(one_line, 79);
    assert(one_line(s, 0));
    lemma_one_line(s, 0);
}

#[verifier::spinoff_prover]
proof fn lemma_about_2()
    ensures
        free_of("the `compute.csv` `key` is the `TorchCallInfo` as compacted JSON (tensors as "@, '\n'),
{
    let s = "the `compute.csv` `key` is the `TorchCallInfo` as compacted JSON (tensors as "@;
    reveal_strlit("the `compute.csv` `key` is the `TorchCallInfo` as compacted JSON (tensors as ");
    reveal_with_fuel(one_line, 79);
    assert(one_line(s, 0));
    lemma_one_line(s, 0);
}

#[verifier::spinoff_prover]
proof fn lemma_about_3()
    ensures
        free_of("`[code,[dims]]`, repeated-tensor lists as `{\"R\":[k,[period]]}`)."@, '\n'),
{
    let s = "`[code,[dims]]`, repeated-tensor lists as `{\"R\":[k,[period]]}`)."@;
    reveal_strlit("`[code,[dims]]`, repeated-tensor lists as `{\"R\":[k,[period]]}`).");
    reveal_with_fuel(one_line, 66);
    assert(one_line(s, 0));
    lemma_one_line(s, 0);
}

/// The fixed parts of the lines have no line end, and only one looks like the line with
/// the name of the GPU.
#[verifier::spinoff_prover]
proof fn lemma_labels()
    ensures
        free_of("- **Schema version:** "@, '\n'),
        "- **Schema version:** "@.len() > 4,
        "- **Schema version:** "@[4] == 'S',
        free_of("- **compute entries:** "@, '\n'),
        "- **compute entries:** "@.len() > 4,
        "- **compute entries:** "@[4] == 'c',
        free_of("- **sequence entries:** "@, '\n'),
        "- **sequence entries:** "@.len() > 4,
        "- **sequence entries:** "@[4] == 's',
        free_of("- **memcpy entries:** "@, '\n'),
        "- **memcpy entries:** "@.len() > 4,
        "- **memcpy entries:** "@[4] == 'm',
        free_of("- **flash_attn entries:** "@, '\n'),
        "- **flash_attn entries:** "@.len() > 4,
        "- **flash_attn entries:** "@[4] == 'f',
        free_of("# Phantora performance database"@, '\n'),
        "# Phantora performance database"@.len() > 4,
        "# Phantora performance database"@[4] == 'a',
        free_of("- **GPU:** "@, '\n'),
        "- **GPU:** "@.len() > 4,
        "- **GPU:** "@[4] == 'G',
        gpu_prefix().len() == 11,
{
    reveal_strlit("- **Schema version:** ");
    reveal_strlit("- **compute entries:** ");
    reveal_strlit("- **sequence entries:** ");
    reveal_strlit("- **memcpy entries:** ");
    reveal_strlit("- **flash_attn entries:** ");
    reveal_strlit("# Phantora performance database");
    reveal_strlit("- **GPU:** ");
    reveal_with_fuel(one_line, 33);
    assert(one_line("- **Schema version:** "@, 0));
    lemma_one_line("- **Schema version:** "@, 0);
    assert(one_line("- **compute entries:** "@, 0));
    lemma_one_line("- **compute entries:** "@, 0);
    assert(one_line("- **sequence entries:** "@, 0));
    lemma_one_line("- **sequence entries:** "@, 0);
    assert(one_line("- **memcpy entries:** "@, 0));
    lemma_one_line("- **memcpy entries:** "@, 0);
    assert(one_line("- **flash_attn entries:** "@, 0));
    lemma_one_line("- **flash_attn entries:** "@, 0);
    assert(one_line("# Phantora performance database"@, 0));
    lemma_one_line("# Phantora performance database"@, 0);
    assert(one_line("- **GPU:** "@, 0));
    lemma_one_line("- **GPU:** "@, 0);
}

proof fn lemma_numbered(label: Seq<char>, n: nat)
    requires
        free_of(label, '\n'),
    ensures
        free_of(label + decimal(n), '\n'),
{
    lemma_decimal(n);
    let s = label + decimal(n);
    assert forall|i: int| 0 <= i < s.len() implies #[trigger] s[i] != '\n' by {
        if i < label.len() {
            assert(label[i] != '\n');
        } else {
            assert(is_digit(decimal(n)[i - label.len()]));
        }
    }
}

proof fn lemma_other_line(line: Seq<char>)
    requires
        line.len() <= 4 || line[4] != 'G',
    ensures
        !begins_with(line, gpu_prefix()),
{
    lemma_labels();
    if begins_with(line, gpu_prefix()) {
        assert(line.take(11)[4] == gpu_prefix()[4]);
    }
}

/// The name of the GPU is read back from the description without the white space around
/// it, unless it has a line end in it.
pub proof fn law_gpu_read_back(
    gpu_name: Seq<char>,
    compute: nat,
    sequence: nat,
    memcpy: nat,
    flash_attn: nat,
)
    requires
        free_of(gpu_name, '\n'),
    ensures
        manifest_gpu(manifest_text(gpu_name, compute, sequence, memcpy, flash_attn)) == trimmed(
            gpu_name,
        ),
{
    let lines = manifest_lines(gpu_name, compute, sequence, memcpy, flash_attn);
    lemma_labels();
    lemma_about_0();
    lemma_about_1();
    lemma_about_2();
    lemma_about_3();
    reveal_strlit("");
    lemma_numbered("- **Schema version:** "@, SCHEMA_VERSION as nat);
    lemma_numbered("- **compute entries:** "@, compute);
    lemma_numbered("- **sequence entries:** "@, sequence);
    lemma_numbered("- **memcpy entries:** "@, memcpy);
    lemma_numbered("- **flash_attn entries:** "@, flash_attn);
    assert(free_of(lines[2], '\n'));
    assert(free_of(lines[9], '\n'));
    assert forall|i: int| 0 <= i < lines.len() implies free_of(#[trigger] lines[i], '\n') by {}
    lemma_joined_split(lines, '\n');
    lemma_other_line(lines[3]);
    lemma_other_line(lines[4]);
    lemma_other_line(lines[5]);
    lemma_other_line(lines[6]);
    lemma_other_line(lines[7]);
    lemma_other_line(lines[8]);
    lemma_other_line(lines[9]);
    lemma_other_line(lines[10]);
    assert(lines[2].take(11) =~= gpu_prefix());
    assert(lines[2].skip(11) =~= gpu_name);
    reveal_with_fuel(gpu_in, 12);
}

} // verus!
