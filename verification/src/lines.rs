//! Persisted archive bytes as lines: splitting on newline, joining with
//! newline, and the round-trip law that joins and splits are inverse.

use vstd::prelude::*;

verus! {

/// ASCII line feed, the line separator of the persisted format.
pub const NL: u8 = 10;

/// No byte of `line` is a newline.
pub open spec fn newline_free(line: Seq<u8>) -> bool {
    forall|i: int| 0 <= i < line.len() ==> line[i] != NL
}

/// The lines of `s`: maximal newline-free runs, with each separating newline
/// consumed, and nothing produced for a trailing newline.
pub open spec fn split_lines(s: Seq<u8>) -> Seq<Seq<u8>>
    decreases s.len(),
{
    if s.len() == 0 {
        Seq::empty()
    } else if s[0] == NL {
        seq![Seq::<u8>::empty()] + split_lines(s.drop_first())
    } else {
        let rest = split_lines(s.drop_first());
        if rest.len() == 0 {
            seq![s]
        } else {
            seq![seq![s[0]] + rest[0]] + rest.drop_first()
        }
    }
}

/// The views of a vector of owned lines.
pub open spec fn line_views(ls: Seq<Vec<u8>>) -> Seq<Seq<u8>> {
    ls.map_values(|l: Vec<u8>| l@)
}

/// A newline-free run with no newline after it is one whole line.
pub proof fn lemma_split_no_newline(s: Seq<u8>)
    requires
        s.len() > 0,
        newline_free(s),
    ensures
        split_lines(s) == seq![s],
    decreases s.len(),
{
    assert(s[0] != NL);
    if s.len() == 1 {
        assert(s.drop_first().len() == 0);
        assert(split_lines(s.drop_first()).len() == 0);
        assert(split_lines(s) =~~= seq![s]);
    } else {
        assert forall|i: int| 0 <= i < s.drop_first().len() implies s.drop_first()[i] != NL by {
            assert(s.drop_first()[i] == s[i + 1]);
        }
        lemma_split_no_newline(s.drop_first());
        assert(seq![s[0]] + s.drop_first() =~= s);
        assert(split_lines(s) =~~= seq![s]);
    }
}

/// Splitting at the first newline: the prefix is the first line, and the rest
/// of the split is the split of what follows the newline.
pub proof fn lemma_split_at_newline(s: Seq<u8>, k: int)
    requires
        0 <= k < s.len(),
        s[k] == NL,
        forall|i: int| 0 <= i < k ==> s[i] != NL,
    ensures
        split_lines(s) == seq![s.take(k)] + split_lines(s.skip(k + 1)),
    decreases k,
{
    if k == 0 {
        assert(s.take(0) =~= Seq::<u8>::empty());
        assert(s.skip(1) =~= s.drop_first());
        assert(split_lines(s) =~~= seq![s.take(0)] + split_lines(s.skip(1)));
    } else {
        let t = s.drop_first();
        assert(t[k - 1] == s[k]);
        assert forall|i: int| 0 <= i < k - 1 implies t[i] != NL by {
            assert(t[i] == s[i + 1]);
        }
        lemma_split_at_newline(t, k - 1);
        let rest = split_lines(t);
        assert(rest == seq![t.take(k - 1)] + split_lines(t.skip(k)));
        assert(rest.len() > 0);
        assert(rest[0] == t.take(k - 1));
        assert(seq![s[0]] + t.take(k - 1) =~= s.take(k));
        assert(rest.drop_first() =~~= split_lines(t.skip(k)));
        assert(t.skip(k) =~= s.skip(k + 1));
        assert(split_lines(s) =~~= seq![s.take(k)] + split_lines(s.skip(k + 1)));
    }
}

/// Split a file's bytes into its lines.
pub fn split_into_lines(data: &Vec<u8>) -> (r: Vec<Vec<u8>>)
    ensures
        line_views(r@) == split_lines(data@),
{
    let mut out: Vec<Vec<u8>> = Vec::new();
    let mut pos: usize = 0;
    proof {
        assert(data@.skip(0) =~= data@);
        assert(line_views(out@) + split_lines(data@) =~~= split_lines(data@));
    }
    while pos < data.len()
        invariant
            pos <= data@.len(),
            split_lines(data@) == line_views(out@) + split_lines(data@.skip(pos as int)),
        decreases data@.len() - pos,
    {
        let ghost prev = out@;
        let mut j = pos;
        while j < data.len() && data[j] != NL
            invariant
                pos <= j <= data@.len(),
                forall|i: int| pos <= i < j ==> data@[i] != NL,
            decreases data@.len() - j,
        {
            j = j + 1;
        }
        let mut line: Vec<u8> = Vec::new();
        let mut k = pos;
        proof {
            assert(line@ =~= data@.subrange(pos as int, pos as int));
        }
        while k < j
            invariant
                pos <= k <= j <= data@.len(),
                line@ == data@.subrange(pos as int, k as int),
            decreases j - k,
        {
            line.push(data[k]);
            proof {
                assert(line@ =~= data@.subrange(pos as int, k as int + 1));
            }
            k = k + 1;
        }
        let ghost s = data@.skip(pos as int);
        proof {
            assert(forall|i: int| 0 <= i < s.len() ==> s[i] == data@[pos as int + i]);
        }
        if j < data.len() {
            proof {
                lemma_split_at_newline(s, j as int - pos as int);
                assert(s.take(j as int - pos as int) =~= data@.subrange(pos as int, j as int));
                assert(s.skip(j as int - pos as int + 1) =~= data@.skip(j as int + 1));
            }
            out.push(line);
            proof {
                assert(line_views(out@) =~~= line_views(prev).push(data@.subrange(
                    pos as int,
                    j as int,
                )));
                assert(split_lines(data@) =~~= line_views(out@) + split_lines(data@.skip(
                    j as int + 1,
                )));
            }
            pos = j + 1;
        } else {
            proof {
                assert(s.len() > 0);
                lemma_split_no_newline(s);
                assert(s =~= data@.subrange(pos as int, j as int));
            }
            out.push(line);
            proof {
                assert(line_views(out@) =~~= line_views(prev).push(s));
                assert(data@.skip(j as int).len() == 0);
                assert(split_lines(data@) =~~= line_views(out@) + split_lines(data@.skip(
                    j as int,
                )));
            }
            pos = j;
        }
    }
    proof {
        assert(data@.skip(pos as int).len() == 0);
        assert(line_views(out@) + split_lines(data@.skip(pos as int)) =~~= line_views(out@));
    }
    out
}

/// `lines` joined with a newline between neighbours and none at the end.
pub open spec fn joined(lines: Seq<Seq<u8>>) -> Seq<u8>
    decreases lines.len(),
{
    if lines.len() == 0 {
        Seq::empty()
    } else if lines.len() == 1 {
        lines[0]
    } else {
        lines[0] + seq![NL] + joined(lines.drop_first())
    }
}

/// Joining one more line appends a separator and the line.
pub proof fn lemma_joined_snoc(s: Seq<Seq<u8>>, x: Seq<u8>)
    ensures
        joined(s.push(x)) == if s.len() == 0 {
            x
        } else {
            joined(s) + seq![NL] + x
        },
    decreases s.len(),
{
    let p = s.push(x);
    if s.len() == 0 {
        assert(p[0] == x);
    } else if s.len() == 1 {
        assert(p.drop_first() =~~= seq![x]);
        assert(joined(p) == p[0] + seq![NL] + joined(seq![x]));
        assert(p[0] == s[0]);
        assert(joined(s) == s[0]);
    } else {
        assert(p.drop_first() =~~= s.drop_first().push(x));
        lemma_joined_snoc(s.drop_first(), x);
        assert(s.drop_first().len() > 0);
        assert(joined(p) == p[0] + seq![NL] + (joined(s.drop_first()) + seq![NL] + x));
        assert(p[0] == s[0]);
        assert(joined(s) == s[0] + seq![NL] + joined(s.drop_first()));
        assert(s[0] + seq![NL] + (joined(s.drop_first()) + seq![NL] + x) =~= (s[0] + seq![NL]
            + joined(s.drop_first())) + seq![NL] + x);
    }
}

/// Join owned lines with newlines, none at the end.
pub fn join_lines(lines: &Vec<Vec<u8>>) -> (r: Vec<u8>)
    ensures
        r@ == joined(line_views(lines@)),
{
    let ghost views = line_views(lines@);
    let mut out: Vec<u8> = Vec::new();
    let mut i: usize = 0;
    proof {
        assert(out@ =~= joined(views.take(0)));
    }
    while i < lines.len()
        invariant
            i <= lines@.len(),
            views == line_views(lines@),
            out@ == joined(views.take(i as int)),
        decreases lines@.len() - i,
    {
        if i > 0 {
            out.push(NL);
        }
        let ghost base = out@;
        let line = &lines[i];
        let mut k: usize = 0;
        proof {
            assert(out@ =~= base + line@.subrange(0, 0));
        }
        while k < line.len()
            invariant
                k <= line@.len(),
                out@ == base + line@.subrange(0, k as int),
            decreases line@.len() - k,
        {
            out.push(line[k]);
            proof {
                assert(out@ =~= base + line@.subrange(0, k as int + 1));
            }
            k = k + 1;
        }
        proof {
            assert(line@.subrange(0, line@.len() as int) =~= line@);
            lemma_joined_snoc(views.take(i as int), views[i as int]);
            assert(views.take(i as int + 1) =~~= views.take(i as int).push(views[i as int]));
            assert(views.take(i as int).len() == i);
            if i == 0 {
                assert(out@ =~= views[0]);
            } else {
                assert(out@ =~= (joined(views.take(i as int)) + seq![NL]) + views[i as int]);
                assert((joined(views.take(i as int)) + seq![NL]) + views[i as int] =~= joined(
                    views.take(i as int),
                ) + seq![NL] + views[i as int]);
            }
        }
        i = i + 1;
    }
    proof {
        assert(views.take(lines@.len() as int) =~~= views);
    }
    out
}

/// Law: round-trip integrity across persistence. Newline-joined lines are
/// recovered unchanged by the splitter, provided no line holds a newline and
/// the final line is not empty.
pub proof fn lemma_join_then_split(lines: Seq<Seq<u8>>)
    requires
        forall|i: int| 0 <= i < lines.len() ==> newline_free(#[trigger] lines[i]),
        lines.len() > 0 ==> lines.last().len() > 0,
    ensures
        split_lines(joined(lines)) == lines,
    decreases lines.len(),
{
    if lines.len() == 0 {
    } else if lines.len() == 1 {
        assert(lines[0].len() > 0);
        lemma_split_no_newline(lines[0]);
        assert(split_lines(joined(lines)) =~~= lines);
    } else {
        let j = joined(lines);
        let k = lines[0].len() as int;
        assert(j == lines[0] + seq![NL] + joined(lines.drop_first()));
        assert(j[k] == NL);
        assert(forall|i: int| 0 <= i < k ==> j[i] == lines[0][i]);
        lemma_split_at_newline(j, k);
        assert(j.take(k) =~= lines[0]);
        assert(j.skip(k + 1) =~= joined(lines.drop_first()));
        assert forall|i: int| 0 <= i < lines.drop_first().len() implies newline_free(
            #[trigger] lines.drop_first()[i],
        ) by {
            assert(lines.drop_first()[i] == lines[i + 1]);
        }
        assert(lines.drop_first().last() == lines.last());
        lemma_join_then_split(lines.drop_first());
        assert(split_lines(j) =~~= lines);
    }
}

} // verus!
