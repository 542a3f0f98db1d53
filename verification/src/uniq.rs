//! Counting runs of equal lines.

use vstd::prelude::*;
use vstd::string::StringExecFns;
use vstd::std_specs::iter::IteratorSpec;
use core::ops::Range;
use crate::decimal::{push_right_aligned, right_aligned};
use crate::lines::{line_bounds, text_lines};
use crate::seqs::{bounds_within, join, lemma_join_push, pieces};
use crate::text::{chars_of, string_of};

verus! {

/// What the user asked for.
#[derive(Debug)]
pub struct Config {
    /// Where to read from; `-` for the standard input.
    pub in_file: String,
    /// Where to write to, if not to the standard output.
    pub out_file: Option<String>,
    /// Whether each line is written with the length of its run.
    pub count: bool,
    /// Whether only lines that repeat are written.
    pub repeats: bool,
    /// Whether only lines that do not repeat are written.
    pub uniques: bool,
    /// Whether lines that differ in the case of ASCII letters count as
    /// equal.
    pub case: bool,
}

/// Counts runs of equal lines, picks among them and writes them out.
pub struct Counter {
    /// Whether each line is written with the length of its run.
    pub count: bool,
    /// Whether only lines that repeat are written.
    pub repeats: bool,
    /// Whether only lines that do not repeat are written.
    pub uniques: bool,
    /// Whether lines that differ in the case of ASCII letters count as
    /// equal.
    pub case: bool,
}

/// A run of equal lines: how many there are, and the last of them.
pub type Run = (u128, String);

/// `c` in lower case if it is an ASCII capital, else `c` itself.
pub open spec fn lower(c: char) -> char {
    if 'A' <= c <= 'Z' {
        ((c as u8 + 32) as u8) as char
    } else {
        c
    }
}

/// Whether two lines count as equal: character for character, or,
/// where the case is ignored, up to the case of ASCII letters.
pub open spec fn same_line(a: Seq<char>, b: Seq<char>, ignore_case: bool) -> bool {
    if ignore_case {
        a.len() == b.len() && forall|i: int| 0 <= i < a.len() ==> lower(a[i]) == lower(b[i])
    } else {
        a == b
    }
}

/// The runs of `lines`: each stretch of neighbours that count as
/// equal, as its length and its last line.
pub open spec fn runs(lines: Seq<Seq<char>>, ignore_case: bool) -> Seq<(nat, Seq<char>)>
    decreases lines.len(),
{
    if lines.len() == 0 {
        Seq::empty()
    } else {
        let before = runs(lines.drop_last(), ignore_case);
        if before.len() > 0 && same_line(before.last().1, lines.last(), ignore_case) {
            before.drop_last().push((before.last().0 + 1, lines.last()))
        } else {
            before.push((1, lines.last()))
        }
    }
}

/// Runs as contracts see them.
pub open spec fn entries(data: Seq<Run>) -> Seq<(nat, Seq<char>)> {
    Seq::new(data.len(), |i: int| (data[i].0 as nat, data[i].1@))
}

/// The runs among `data` for which `keep` holds of the length.
pub open spec fn retained(data: Seq<(nat, Seq<char>)>, keep: spec_fn(nat) -> bool) -> Seq<(nat, Seq<char>)>
    decreases data.len(),
{
    if data.len() == 0 {
        Seq::empty()
    } else if keep(data.last().0) {
        retained(data.drop_last(), keep).push(data.last())
    } else {
        retained(data.drop_last(), keep)
    }
}

/// One run as it is written: its line, after its length in a column of
/// four and a space where lengths are shown.
pub open spec fn shown(run: (nat, Seq<char>), with_count: bool) -> Seq<char> {
    if with_count {
        right_aligned(run.0, 4).push(' ') + run.1
    } else {
        run.1
    }
}

/// The runs as they are written, one by one.
pub open spec fn all_shown(data: Seq<(nat, Seq<char>)>, with_count: bool) -> Seq<Seq<char>> {
    Seq::new(data.len(), |i: int| shown(data[i], with_count))
}

impl Config {
    /// The counter that does what `self` asks for.
    pub fn get_counter(&self) -> (counter: Counter)
        ensures
            counter.count == self.count,
            counter.repeats == self.repeats,
            counter.uniques == self.uniques,
            counter.case == self.case,
    {
        Counter::new(self)
    }
}

/// Tells whether `a` and `b` are the same up to the case of ASCII
/// letters.
fn same_letter(a: char, b: char) -> (r: bool)
    ensures
        r == (lower(a) == lower(b)),
{
    let x = if 'A' <= a && a <= 'Z' {
        (a as u8 + 32) as char
    } else {
        a
    };
    let y = if 'A' <= b && b <= 'Z' {
        (b as u8 + 32) as char
    } else {
        b
    };
    x == y
}

/// Tells whether two lines count as equal.
fn lines_match(a: &[char], b: &[char], ignore_case: bool) -> (r: bool)
    ensures
        r == same_line(a@, b@, ignore_case),
{
    if a.len() != b.len() {
        return false;
    }
    let mut i: usize = 0;
    while i < a.len()
        invariant
            i <= a.len(),
            a.len() == b.len(),
            forall|j: int| 0 <= j < i ==> lower(a@[j]) == lower(b@[j]),
            forall|j: int| 0 <= j < i ==> a@[j] == b@[j] || ignore_case,
        decreases a.len() - i,
    {
        let equal = if ignore_case {
            same_letter(a[i], b[i])
        } else {
            a[i] == b[i]
        };
        if !equal {
            return false;
        }
        i += 1;
    }
    proof {
        if !ignore_case {
            assert(a@ =~= b@);
        }
    }
    true
}

impl Counter {
    /// The counter that does what `c` asks for.
    pub fn new(c: &Config) -> (counter: Counter)
        ensures
            counter.count == c.count,
            counter.repeats == c.repeats,
            counter.uniques == c.uniques,
            counter.case == c.case,
    {
        Counter { count: c.count, repeats: c.repeats, uniques: c.uniques, case: c.case }
    }

    /// Whether a run of length `n` is written.
    pub open spec fn keeps(&self, n: nat) -> bool {
        if self.repeats {
            n > 1
        } else if self.uniques {
            n == 1
        } else {
            true
        }
    }

    /// What is written for `data`.
    pub open spec fn formatted(&self, data: Seq<(nat, Seq<char>)>) -> Seq<char> {
        join(all_shown(retained(data, |n: nat| self.keeps(n)), self.count), '\n')
    }

    /// The runs of equal lines in `source`, in their order.
    pub fn count(&self, source: &str) -> (data: Vec<Run>)
        ensures
            entries(data@) == runs(text_lines(source@), self.case),
    {
        let chars = chars_of(source);
        let text = chars.as_slice();
        let bounds = line_bounds(text, '\n', '\r');
        let ghost lines = text_lines(source@);
        let mut data: Vec<Run> = Vec::new();
        let mut k: usize = 0;
        while k < bounds.len()
            invariant
                k <= bounds.len(),
                text@ == source@,
                bounds_within(bounds@, text@.len()),
                pieces(text@, bounds@) == lines,
                entries(data@) == runs(lines.take(k as int), self.case),
                forall|j: int| 0 <= j < data@.len() ==> (#[trigger] data@[j]).0 <= k,
                k > 0 ==> data@.len() > 0 && data@.last().1@ == lines[k - 1],
            decreases bounds.len() - k,
        {
            let line = vstd::slice::slice_subrange(text, bounds[k].start, bounds[k].end);
            proof {
                assert(line@ == lines[k as int]);
                assert(lines.take(k + 1).drop_last() == lines.take(k as int));
                assert(lines.take(k + 1).last() == line@);
                if k > 0 {
                    assert(entries(data@).last() == (data@.last().0 as nat, data@.last().1@));
                }
            }
            let ghost before = data@;
            let mut length: u128 = 1;
            if k > 0 {
                let previous = vstd::slice::slice_subrange(text, bounds[k - 1].start, bounds[k - 1].end);
                proof {
                    assert(previous@ == lines[k - 1]);
                }
                if lines_match(previous, line, self.case) {
                    let last = data.pop().unwrap();
                    length = last.0 + 1;
                    proof {
                        assert(entries(data@) == entries(before).drop_last());
                    }
                }
            }
            let ghost kept = data@;
            data.push((length, string_of(line)));
            proof {
                assert(entries(data@) == entries(kept).push((length as nat, line@)));
            }
            k += 1;
        }
        proof {
            assert(lines.take(k as int) == lines);
        }
        data
    }

    /// Picks the runs to write: those of more than one line where only
    /// repeats are asked for, else those of one line where only
    /// uniques are asked for, else all.
    pub fn filter(&self, data: Vec<Run>) -> (out: Vec<Run>)
        ensures
            entries(out@) == retained(entries(data@), |n: nat| self.keeps(n)),
    {
        let ghost keep = |n: nat| self.keeps(n);
        let ghost all = entries(data@);
        let mut out: Vec<Run> = Vec::new();
        for run in it: data
            invariant
                it.seq() == data@,
                all == entries(data@),
                keep == |n: nat| self.keeps(n),
                entries(out@) == retained(all.take(it.index() as int), keep),
        {
            proof {
                let i = it.index() as int;
                assert(all.take(i + 1).drop_last() == all.take(i));
                assert(all.take(i + 1).last() == (run.0 as nat, run.1@));
            }
            let wanted = if self.repeats {
                run.0 > 1
            } else if self.uniques {
                run.0 == 1
            } else {
                true
            };
            if wanted {
                let ghost before = out@;
                proof {
                    assert(keep(run.0 as nat));
                }
                out.push(run);
                proof {
                    assert(entries(out@) == entries(before).push((run.0 as nat, run.1@)));
                }
            } else {
                proof {
                    assert(!keep(run.0 as nat));
                }
            }
        }
        proof {
            assert(all.take(all.len() as int) == all);
        }
        out
    }

    /// Writes out the runs that `filter` picks, one on each line, each
    /// with its length before it where lengths are shown. No line feed
    /// follows the last.
    pub fn format(&self, data: Vec<Run>) -> (out: String)
        ensures
            out@ == self.formatted(entries(data@)),
    {
        let picked = self.filter(data);
        let ghost lines = all_shown(entries(picked@), self.count);
        let mut out = String::new();
        let mut i: usize = 0;
        while i < picked.len()
            invariant
                i <= picked.len(),
                lines == all_shown(entries(picked@), self.count),
                out@ == join(lines.take(i as int), '\n'),
            decreases picked.len() - i,
        {
            proof {
                assert(lines.take(i + 1) == lines.take(i as int).push(lines[i as int]));
                lemma_join_push(lines.take(i as int), lines[i as int], '\n');
            }
            if i > 0 {
                out.push('\n');
            }
            if self.count {
                let mut column: Vec<char> = Vec::new();
                push_right_aligned(picked[i].0, 4, &mut column);
                column.push(' ');
                out.append(string_of(column.as_slice()).as_str());
            }
            out.append(picked[i].1.as_str());
            i += 1;
        }
        proof {
            assert(lines.take(i as int) == lines);
        }
        out
    }
}

/// How many lines the runs hold together.
pub open spec fn total(data: Seq<(nat, Seq<char>)>) -> nat
    decreases data.len(),
{
    if data.len() == 0 {
        0
    } else {
        total(data.drop_last()) + data.last().0
    }
}

/// The runs hold every line once: their lengths add up to the number
/// of lines, and no run is empty.
pub proof fn law_runs_hold_every_line(lines: Seq<Seq<char>>, ignore_case: bool)
    ensures
        total(runs(lines, ignore_case)) == lines.len(),
        forall|i: int| 0 <= i < runs(lines, ignore_case).len() ==> (#[trigger] runs(lines, ignore_case)[i]).0 >= 1,
    decreases lines.len(),
{
    if lines.len() > 0 {
        law_runs_hold_every_line(lines.drop_last(), ignore_case);
        let before = runs(lines.drop_last(), ignore_case);
        if before.len() > 0 && same_line(before.last().1, lines.last(), ignore_case) {
            let merged = before.drop_last().push((before.last().0 + 1, lines.last()));
            assert(merged.drop_last() == before.drop_last());
        } else {
            assert(before.push((1, lines.last())).drop_last() == before);
        }
    }
}

/// Runs are as long as can be: the lines of two neighbouring runs do
/// not count as equal. The last run ends with the last line.
pub proof fn law_neighbours_differ(lines: Seq<Seq<char>>, ignore_case: bool)
    ensures
        forall|i: int|
            0 < i < runs(lines, ignore_case).len() ==> !same_line(
                runs(lines, ignore_case)[i - 1].1,
                (#[trigger] runs(lines, ignore_case)[i]).1,
                ignore_case,
            ),
        lines.len() > 0 ==> runs(lines, ignore_case).len() > 0 && runs(lines, ignore_case).last().1 == lines.last(),
    decreases lines.len(),
{
    if lines.len() > 0 {
        law_neighbours_differ(lines.drop_last(), ignore_case);
        let before = runs(lines.drop_last(), ignore_case);
        let all = runs(lines, ignore_case);
        if before.len() > 0 && same_line(before.last().1, lines.last(), ignore_case) {
            assert forall|i: int| 0 < i < all.len() implies !same_line(all[i - 1].1, (#[trigger] all[i]).1, ignore_case) by {
                if i == all.len() - 1 {
                    let x = before[i - 1].1;
                    let y = before[i].1;
                    let z = lines.last();
                    assert(!same_line(x, y, ignore_case));
                    assert(same_line(y, z, ignore_case));
                    if same_line(x, z, ignore_case) {
                        if ignore_case {
                            assert forall|j: int| 0 <= j < x.len() implies lower(x[j]) == lower(y[j]) by {
                                assert(lower(x[j]) == lower(z[j]));
                                assert(lower(y[j]) == lower(z[j]));
                            }
                        }
                        assert(same_line(x, y, ignore_case));
                    }
                } else {
                    assert(all[i] == before[i]);
                    assert(all[i - 1] == before[i - 1]);
                }
            }
        } else {
            assert forall|i: int| 0 < i < all.len() implies !same_line(all[i - 1].1, (#[trigger] all[i]).1, ignore_case) by {
                if i < all.len() - 1 {
                    assert(all[i] == before[i]);
                    assert(all[i - 1] == before[i - 1]);
                }
            }
        }
    }
}

} // verus!
