//! The merge-sort aggregator: after every filter worker has completed, join
//! their outcomes, restore global id order, and render one newline-joined
//! output. The policy on a failed worker is explicit: the whole merge fails,
//! surfacing which file and which line could not be read.

use vstd::prelude::*;
use crate::filter::{
    failure_at, record_views, worker_ok, worker_spec, filter_file, LogRecord, ParseFault,
    RecordView, WorkerError,
};
use crate::lines::{joined, lemma_joined_snoc, split_lines, NL};
use crate::order::{sort_records, sort_spec};

verus! {

/// The merge failed: worker `file` reported that `line` could not be read.
#[derive(Clone, Copy, PartialEq, Eq, Structural, Debug)]
pub struct MergeError {
    pub file: usize,
    pub line: usize,
    pub fault: ParseFault,
}

/// Every worker delivered records.
pub open spec fn all_ok(outs: Seq<Result<Vec<LogRecord>, WorkerError>>) -> bool {
    forall|i: int| 0 <= i < outs.len() ==> (#[trigger] outs[i]) is Ok
}

/// All delivered records, in worker order.
pub open spec fn concat_records(outs: Seq<Result<Vec<LogRecord>, WorkerError>>) -> Seq<
    RecordView,
>
    decreases outs.len(),
{
    if outs.len() == 0 {
        Seq::empty()
    } else {
        concat_records(outs.drop_last()) + if outs.last() is Ok {
            record_views(outs.last()->Ok_0@)
        } else {
            Seq::empty()
        }
    }
}

/// The raw line of each record.
pub open spec fn raws(rs: Seq<RecordView>) -> Seq<Seq<u8>> {
    rs.map_values(|r: RecordView| r.raw)
}

/// The output owed for a gathering of records: their lines, globally ordered
/// by id, newline-joined.
pub open spec fn rendered(rs: Seq<RecordView>) -> Seq<u8> {
    joined(raws(sort_spec(rs)))
}

/// Write the records' lines, newline-joined, none at the end.
fn render(recs: &Vec<LogRecord>) -> (r: Vec<u8>)
    ensures
        r@ == joined(raws(record_views(recs@))),
{
    let ghost views = raws(record_views(recs@));
    let mut out: Vec<u8> = Vec::new();
    let mut i: usize = 0;
    proof {
        assert(out@ =~= joined(views.take(0)));
    }
    while i < recs.len()
        invariant
            i <= recs@.len(),
            views == raws(record_views(recs@)),
            out@ == joined(views.take(i as int)),
        decreases recs@.len() - i,
    {
        if i > 0 {
            out.push(NL);
        }
        let ghost base = out@;
        let line = &recs[i].raw;
        proof {
            assert(line@ == views[i as int]);
            assert(out@ =~= base + line@.subrange(0, 0));
        }
        let mut k: usize = 0;
        while k < line.len()
            invariant
                k <= line@.len(),
                out@ == base + line@.subrange(0, k as int),
            decreases line@.len() - k,
        {
            out.push(line[k]);
            proof {
                assert(out@ =~= base + line@.subrange(0, k as int + 1));
            }
            k = k + 1;
        }
        proof {
            assert(line@.subrange(0, line@.len() as int) =~= line@);
            lemma_joined_snoc(views.take(i as int), views[i as int]);
            assert(views.take(i as int + 1) =~~= views.take(i as int).push(views[i as int]));
            assert(views.take(i as int).len() == i);
            if i == 0 {
                assert(out@ =~= views[0]);
            } else {
                assert(out@ =~= (joined(views.take(i as int)) + seq![NL]) + views[i as int]);
                assert((joined(views.take(i as int)) + seq![NL]) + views[i as int] =~= joined(
                    views.take(i as int),
                ) + seq![NL] + views[i as int]);
            }
        }
        i = i + 1;
    }
    proof {
        assert(views.take(recs@.len() as int) =~~= views);
    }
    out
}

/// The join barrier and merge: takes every worker's outcome, and either all
/// delivered and one ordered output is rendered, or the first failure is
/// surfaced with its file and line.
#[verifier::loop_isolation(false)]
pub fn aggregate(outcomes: &mut Vec<Result<Vec<LogRecord>, WorkerError>>) -> (r: Result<
    Vec<u8>,
    MergeError,
>)
    ensures
        r is Ok <==> all_ok(old(outcomes)@),
        r is Ok ==> r->Ok_0@ == rendered(concat_records(old(outcomes)@)),
        r is Err ==> ({
            let e = r->Err_0;
            &&& e.file < old(outcomes)@.len()
            &&& old(outcomes)@[e.file as int] is Err
            &&& forall|j: int| 0 <= j < e.file ==> (#[trigger] old(outcomes)@[j]) is Ok
            &&& e.line == old(outcomes)@[e.file as int]->Err_0.line
            &&& e.fault == old(outcomes)@[e.file as int]->Err_0.fault
        }),
{
    let ghost orig = outcomes@;
    let total = outcomes.len();
    let mut all: Vec<LogRecord> = Vec::new();
    let mut i: usize = 0;
    proof {
        assert(record_views(all@) =~~= concat_records(orig.take(0)));
        assert(outcomes@ =~= orig.skip(0));
    }
    while i < total
        invariant
            total == orig.len(),
            i <= total,
            outcomes@ == orig.skip(i as int),
            record_views(all@) == concat_records(orig.take(i as int)),
            forall|j: int| 0 <= j < i ==> (#[trigger] orig[j]) is Ok,
        decreases orig.len() - i,
    {
        let ghost old_rem = outcomes@;
        let ghost prev = record_views(all@);
        let next = outcomes.remove(0);
        proof {
            assert(next == orig[i as int]);
            assert forall|x: int|
                0 <= x < outcomes@.len() implies outcomes@[x] == orig.skip(i as int + 1)[x] by {
                assert(outcomes@[x] == old_rem[x + 1]);
                assert(orig.skip(i as int)[x + 1] == orig[i as int + 1 + x]);
                assert(orig.skip(i as int + 1)[x] == orig[i as int + 1 + x]);
            }
            assert(outcomes@ =~= orig.skip(i as int + 1));
            assert(orig.take(i as int + 1).drop_last() =~~= orig.take(i as int));
            assert(orig.take(i as int + 1).last() == orig[i as int]);
        }
        match next {
            Ok(mut v) => {
                let ghost vv = v@;
                all.append(&mut v);
                proof {
                    assert(orig[i as int]->Ok_0@ == vv);
                    assert forall|x: int|
                        0 <= x < all@.len() implies record_views(all@)[x] == (prev + record_views(
                        vv,
                    ))[x] by {
                        if x < prev.len() {
                            assert(all@[x]@ == prev[x]);
                        } else {
                            assert(all@[x] == vv[x - prev.len()]);
                        }
                    }
                    assert(record_views(all@) =~~= prev + record_views(vv));
                    assert(record_views(all@) =~~= concat_records(orig.take(i as int + 1)));
                }
                i = i + 1;
            },
            Err(w) => {
                proof {
                    assert(orig[i as int] is Err);
                    assert(!all_ok(orig));
                }
                return Err(MergeError { file: i, line: w.line, fault: w.fault });
            },
        }
    }
    proof {
        assert(orig.take(orig.len() as int) =~~= orig);
    }
    let sorted = sort_records(all);
    let bytes = render(&sorted);
    Ok(bytes)
}

/// The views of a vector of persisted files' bytes.
pub open spec fn file_views(files: Seq<Vec<u8>>) -> Seq<Seq<u8>> {
    files.map_values(|f: Vec<u8>| f@)
}

/// Every file's matched lines have readable ids.
pub open spec fn pipeline_ok(files: Seq<Seq<u8>>, pat: Seq<u8>) -> bool {
    forall|f: int| 0 <= f < files.len() ==> worker_ok(split_lines(#[trigger] files[f]), pat)
}

/// The records every worker would deliver, in file order.
pub open spec fn all_records(files: Seq<Seq<u8>>, pat: Seq<u8>) -> Seq<RecordView>
    decreases files.len(),
{
    if files.len() == 0 {
        Seq::empty()
    } else {
        all_records(files.drop_last(), pat) + worker_spec(split_lines(files.last()), pat)
    }
}

/// The filter phase's one output for the persisted files and the pattern.
pub open spec fn merged_output(files: Seq<Seq<u8>>, pat: Seq<u8>) -> Seq<u8> {
    rendered(all_records(files, pat))
}

/// Outcomes that deliver each file's records gather exactly the records of
/// all files.
proof fn lemma_concat_matches(
    outs: Seq<Result<Vec<LogRecord>, WorkerError>>,
    files: Seq<Seq<u8>>,
    pat: Seq<u8>,
)
    requires
        outs.len() == files.len(),
        forall|j: int| 0 <= j < outs.len() ==> (#[trigger] outs[j]) is Ok,
        forall|j: int|
            0 <= j < outs.len() ==> record_views((#[trigger] outs[j])->Ok_0@) == worker_spec(
                split_lines(files[j]),
                pat,
            ),
    ensures
        concat_records(outs) == all_records(files, pat),
    decreases outs.len(),
{
    if outs.len() == 0 {
    } else {
        assert forall|j: int|
            0 <= j < outs.drop_last().len() implies (#[trigger] outs.drop_last()[j]) is Ok by {
            assert(outs.drop_last()[j] == outs[j]);
        }
        assert forall|j: int|
            0 <= j < outs.drop_last().len() implies record_views(
            (#[trigger] outs.drop_last()[j])->Ok_0@,
        ) == worker_spec(split_lines(files.drop_last()[j]), pat) by {
            assert(outs.drop_last()[j] == outs[j]);
            assert(files.drop_last()[j] == files[j]);
        }
        lemma_concat_matches(outs.drop_last(), files.drop_last(), pat);
        assert(outs.last() == outs[outs.len() - 1]);
        assert(files.last() == files[files.len() - 1]);
    }
}

/// The whole filter phase: dispatch one worker per persisted file, wait for
/// all outcomes, then merge. Either the globally ordered output is returned,
/// or the first worker failure is surfaced with its file and line.
pub fn filter_pipeline(files: &Vec<Vec<u8>>, pat: &Vec<u8>) -> (r: Result<Vec<u8>, MergeError>)
    ensures
        r is Ok <==> pipeline_ok(file_views(files@), pat@),
        r is Ok ==> r->Ok_0@ == merged_output(file_views(files@), pat@),
        r is Err ==> ({
            let e = r->Err_0;
            let fv = file_views(files@);
            &&& e.file < fv.len()
            &&& !worker_ok(split_lines(fv[e.file as int]), pat@)
            &&& forall|j: int| 0 <= j < e.file ==> worker_ok(split_lines(#[trigger] fv[j]), pat@)
            &&& failure_at(
                split_lines(fv[e.file as int]),
                pat@,
                (WorkerError { line: e.line, fault: e.fault }),
            )
        }),
{
    let ghost fv = file_views(files@);
    let mut outcomes: Vec<Result<Vec<LogRecord>, WorkerError>> = Vec::new();
    let mut i: usize = 0;
    while i < files.len()
        invariant
            i <= files@.len(),
            fv == file_views(files@),
            outcomes@.len() == i,
            forall|j: int|
                0 <= j < i ==> ((#[trigger] outcomes@[j]) is Ok <==> worker_ok(
                    split_lines(fv[j]),
                    pat@,
                )),
            forall|j: int|
                0 <= j < i ==> ((#[trigger] outcomes@[j]) is Ok ==> record_views(
                    outcomes@[j]->Ok_0@,
                ) == worker_spec(split_lines(fv[j]), pat@)),
            forall|j: int|
                0 <= j < i ==> ((#[trigger] outcomes@[j]) is Err ==> failure_at(
                    split_lines(fv[j]),
                    pat@,
                    outcomes@[j]->Err_0,
                )),
        decreases files@.len() - i,
    {
        let res = filter_file(&files[i], pat);
        proof {
            assert(files@[i as int]@ == fv[i as int]);
        }
        outcomes.push(res);
        i = i + 1;
    }
    let ghost outs = outcomes@;
    let agg = aggregate(&mut outcomes);
    match agg {
        Ok(v) => {
            proof {
                assert(all_ok(outs));
                assert forall|f: int|
                    0 <= f < fv.len() implies worker_ok(split_lines(#[trigger] fv[f]), pat@) by {
                    assert(outs[f] is Ok);
                }
                assert forall|j: int|
                    0 <= j < outs.len() implies record_views((#[trigger] outs[j])->Ok_0@)
                    == worker_spec(split_lines(fv[j]), pat@) by {
                    assert(outs[j] is Ok);
                }
                lemma_concat_matches(outs, fv, pat@);
            }
            Ok(v)
        },
        Err(e) => {
            proof {
                assert(outs[e.file as int] is Err);
                assert(!worker_ok(split_lines(fv[e.file as int]), pat@));
                assert forall|j: int|
                    0 <= j < e.file implies worker_ok(split_lines(#[trigger] fv[j]), pat@) by {
                    assert(outs[j] is Ok);
                }
                assert(failure_at(split_lines(fv[e.file as int]), pat@, outs[e.file as int]->Err_0));
                assert((WorkerError { line: e.line, fault: e.fault }) == outs[e.file as int]->Err_0);
            }
            Err(e)
        },
    }
}

/// Law: the completion order of workers never changes the output. Two
/// gatherings that join the same per-worker records in either order render
/// the same bytes, provided the records' ids are distinct.
pub proof fn lemma_render_order_independent(x: Seq<RecordView>, y: Seq<RecordView>)
    requires
        crate::order::distinct_ids(x + y),
    ensures
        rendered(x + y) == rendered(y + x),
{
    crate::order::lemma_concat_commutes(x, y);
    crate::order::lemma_merge_order_independent(x + y, y + x);
}

/// Law: filtering is idempotent. The output owed is a function of the
/// persisted bytes and the pattern alone, so re-running the phase on
/// identical input yields byte-identical output.
pub proof fn lemma_filter_idempotent(files: Seq<Seq<u8>>, pat: Seq<u8>, r1: Seq<u8>, r2: Seq<u8>)
    requires
        r1 == merged_output(files, pat),
        r2 == merged_output(files, pat),
    ensures
        r1 == r2,
{
}

} // verus!
