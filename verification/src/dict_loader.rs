//! Parsing of the line-oriented dictionary text: each line holds one
//! character, a two-byte separator, and a comma-space-separated list of
//! toned syllables. Loading the dictionary file itself is the caller's
//! business; this module only turns its text into pairs.

use vstd::prelude::*;

use crate::unicode_utils::{chars_of, flatten_range, grapheme_split, segment_chars};

verus! {

/// The comma-space-separated records of `s`, scanned from position `i`
/// with the piece `cur` under construction.
pub open spec fn records_from(s: Seq<char>, i: int, cur: Seq<char>) -> Seq<Seq<char>>
    decreases s.len() - i,
{
    if i < 0 || i >= s.len() {
        seq![cur]
    } else if i + 1 < s.len() && s[i] == ',' && s[i + 1] == ' ' {
        seq![cur] + records_from(s, i + 2, Seq::empty())
    } else {
        records_from(s, i + 1, cur.push(s[i]))
    }
}

/// The comma-space-separated records of `s`; there is always at least
/// one, possibly empty.
pub open spec fn spec_records(s: Seq<char>) -> Seq<Seq<char>> {
    records_from(s, 0, Seq::empty())
}

/// A line with a trailing carriage return sheds it.
pub open spec fn strip_cr(l: Seq<char>) -> Seq<char> {
    if l.len() > 0 && l.last() == '\r' {
        l.drop_last()
    } else {
        l
    }
}

/// The lines of `s`, scanned from position `i` with the line `cur` under
/// construction; a final line is kept only when non-empty.
pub open spec fn lines_from(s: Seq<char>, i: int, cur: Seq<char>) -> Seq<Seq<char>>
    decreases s.len() - i,
{
    if i < 0 || i >= s.len() {
        if cur.len() > 0 {
            seq![strip_cr(cur)]
        } else {
            Seq::empty()
        }
    } else if s[i] == '\n' {
        seq![strip_cr(cur)] + lines_from(s, i + 1, Seq::empty())
    } else {
        lines_from(s, i + 1, cur.push(s[i]))
    }
}

/// The lines of `s`.
pub open spec fn spec_lines(s: Seq<char>) -> Seq<Seq<char>> {
    lines_from(s, 0, Seq::empty())
}

/// The dictionary pairs a sequence of lines yields: each line of at least
/// four grapheme clusters contributes its first character and the records
/// of everything from the fourth cluster on; shorter lines are skipped.
pub open spec fn spec_dict_pairs(lines: Seq<Seq<char>>) -> Seq<(char, Seq<Seq<char>>)>
    decreases lines.len(),
{
    if lines.len() == 0 {
        Seq::empty()
    } else {
        let l = lines.first();
        let rest = spec_dict_pairs(lines.drop_first());
        if grapheme_split(l).len() >= 4 && l.len() > 0 {
            seq![
                (
                    l[0],
                    spec_records(
                        grapheme_split(l).subrange(3, grapheme_split(l).len() as int).flatten(),
                    ),
                ),
            ] + rest
        } else {
            rest
        }
    }
}

/// Splits `s` at every occurrence of `", "`; the result is exactly the
/// records of `s` and there is always at least one piece.
fn split_records(s: &Vec<char>) -> (r: Vec<Vec<char>>)
    ensures
        r.deep_view() == spec_records(s@),
        r@.len() >= 1,
{
    let mut out: Vec<Vec<char>> = Vec::new();
    let mut cur: Vec<char> = Vec::new();
    let mut i: usize = 0;
    proof {
        crate::unicode_utils::lemma_deep_view_vecs(&out);
        assert(cur@ =~= Seq::<char>::empty());
    }
    while i < s.len()
        invariant
            i <= s@.len(),
            out.deep_view().len() == out@.len(),
            spec_records(s@) == out.deep_view() + records_from(s@, i as int, cur@),
        decreases s@.len() - i,
    {
        if i + 1 < s.len() && s[i] == ',' && s[i + 1] == ' ' {
            let done = cur;
            cur = Vec::new();
            let ghost preout = out.deep_view();
            out.push(done);
            proof {
                crate::unicode_utils::lemma_deep_view_vecs(&out);
                assert(out.deep_view() =~= preout.push(done@));
                assert(out.deep_view() + records_from(s@, i + 2, Seq::empty()) =~= preout + (
                seq![done@] + records_from(s@, i + 2, Seq::empty())));
                assert(cur@ =~= Seq::<char>::empty());
            }
            i = i + 2;
        } else {
            cur.push(s[i]);
            i = i + 1;
        }
    }
    let ghost preout = out.deep_view();
    out.push(cur);
    proof {
        crate::unicode_utils::lemma_deep_view_vecs(&out);
        assert(out.deep_view() =~= preout.push(out@.last()@));
        assert(out.deep_view() =~= spec_records(s@));
    }
    out
}

/// Splits text into lines at newline characters, dropping a carriage
/// return left at a line's end; the result is exactly the lines of the
/// text.
fn split_lines(s: &Vec<char>) -> (r: Vec<Vec<char>>)
    ensures
        r.deep_view() == spec_lines(s@),
{
    let mut out: Vec<Vec<char>> = Vec::new();
    let mut cur: Vec<char> = Vec::new();
    let mut i: usize = 0;
    proof {
        crate::unicode_utils::lemma_deep_view_vecs(&out);
        assert(cur@ =~= Seq::<char>::empty());
    }
    while i < s.len()
        invariant
            i <= s@.len(),
            out.deep_view().len() == out@.len(),
            spec_lines(s@) == out.deep_view() + lines_from(s@, i as int, cur@),
        decreases s@.len() - i,
    {
        if s[i] == '\n' {
            let ghost curv = cur@;
            if cur.len() > 0 && cur[cur.len() - 1] == '\r' {
                cur.pop();
                proof {
                    assert(cur@ =~= strip_cr(curv));
                }
            }
            proof {
                assert(cur@ == strip_cr(curv));
            }
            let done = cur;
            cur = Vec::new();
            let ghost preout = out.deep_view();
            out.push(done);
            proof {
                crate::unicode_utils::lemma_deep_view_vecs(&out);
                assert(out.deep_view() =~= preout.push(done@));
                assert(out.deep_view() + lines_from(s@, i + 1, Seq::empty()) =~= preout + (
                seq![strip_cr(curv)] + lines_from(s@, i + 1, Seq::empty())));
                assert(cur@ =~= Seq::<char>::empty());
            }
        } else {
            cur.push(s[i]);
        }
        i = i + 1;
    }
    let ghost curv = cur@;
    if cur.len() > 0 {
        if cur[cur.len() - 1] == '\r' {
            cur.pop();
            proof {
                assert(cur@ =~= strip_cr(curv));
            }
        }
        proof {
            assert(cur@ == strip_cr(curv));
        }
        let ghost preout = out.deep_view();
        out.push(cur);
        proof {
            crate::unicode_utils::lemma_deep_view_vecs(&out);
            assert(out.deep_view() =~= preout.push(out@.last()@));
            assert(out.deep_view() =~= spec_lines(s@));
        }
    } else {
        proof {
            assert(out.deep_view() + lines_from(s@, s@.len() as int, curv) =~= out.deep_view());
        }
    }
    out
}

/// What a parsed pair looks like in the model: the character and its
/// record strings.
pub open spec fn pairs_view(r: Seq<(char, Vec<Vec<char>>)>) -> Seq<(char, Seq<Seq<char>>)> {
    r.map_values(|p: (char, Vec<Vec<char>>)| (p.0, p.1.deep_view()))
}

/// The dictionary pairs of `text`: for each line of at least four
/// grapheme clusters, its leading character and the syllables listed
/// after the separator, in order; shorter lines are skipped, and every
/// kept line carries at least one reading.
pub fn parse_dict(text: &str) -> (r: Vec<(char, Vec<Vec<char>>)>)
    ensures
        pairs_view(r@) == spec_dict_pairs(spec_lines(text@)),
        forall|i: int| 0 <= i < r@.len() ==> (#[trigger] r@[i]).1@.len() >= 1,
{
    let cs = chars_of(text);
    let lines = split_lines(&cs);
    let mut out: Vec<(char, Vec<Vec<char>>)> = Vec::new();
    let mut i: usize = 0;
    proof {
        crate::unicode_utils::lemma_deep_view_vecs(&lines);
        assert(lines.deep_view().subrange(0, lines.deep_view().len() as int)
            =~= lines.deep_view());
        assert(pairs_view(out@) =~= Seq::<(char, Seq<Seq<char>>)>::empty());
    }
    while i < lines.len()
        invariant
            i <= lines@.len(),
            lines.deep_view().len() == lines@.len(),
            forall|t: int| 0 <= t < lines@.len() ==> #[trigger] lines.deep_view()[t]
                == lines@[t]@,
            spec_dict_pairs(lines.deep_view()) == pairs_view(out@) + spec_dict_pairs(
                lines.deep_view().subrange(i as int, lines.deep_view().len() as int),
            ),
            forall|t: int| 0 <= t < out@.len() ==> (#[trigger] out@[t]).1@.len() >= 1,
        decreases lines@.len() - i,
    {
        let ghost lsub = lines.deep_view().subrange(i as int, lines.deep_view().len() as int);
        proof {
            assert(lsub.drop_first() =~= lines.deep_view().subrange(
                i + 1,
                lines.deep_view().len() as int,
            ));
            assert(lsub.first() == lines.deep_view()[i as int]);
        }
        let line = &lines[i];
        let gs = segment_chars(line);
        if gs.len() >= 4 && line.len() > 0 {
            let ch = line[0];
            let rest = flatten_range(&gs, 3, gs.len());
            proof {
                assert(rest@ == grapheme_split(line@).subrange(
                    3,
                    grapheme_split(line@).len() as int,
                ).flatten());
            }
            let records = split_records(&rest);
            let ghost preout = out@;
            out.push((ch, records));
            proof {
                assert forall|t: int| 0 <= t < out@.len() implies (#[trigger] out@[t]).1@.len()
                    >= 1 by {
                    if t < preout.len() {
                        assert(out@[t] == preout[t]);
                    }
                }
                assert(pairs_view(out@) =~= pairs_view(preout).push(
                    (ch, records.deep_view()),
                ));
                assert(pairs_view(out@) + spec_dict_pairs(lsub.drop_first()) =~= pairs_view(
                    preout,
                ) + spec_dict_pairs(lsub));
            }
        } else {
            proof {
                assert(spec_dict_pairs(lsub) == spec_dict_pairs(lsub.drop_first()));
            }
        }
        i = i + 1;
    }
    proof {
        assert(lines.deep_view().subrange(
            lines.deep_view().len() as int,
            lines.deep_view().len() as int,
        ) =~= Seq::<Seq<char>>::empty());
        assert(pairs_view(out@) =~= spec_dict_pairs(lines.deep_view()));
    }
    out
}

} // verus!
