use vstd::prelude::*;

use crate::bytes::push_bytes;
use crate::cached_writer::CachedWriter;
use crate::cached_writer::OUTPUT_FLUSH_THRESHOLD;
use crate::cached_writer::FileWriter;
use crate::cached_writer::WriteError;
use crate::log_parser::LineModel;
use crate::log_parser::LogLine;

verus! {

/// What a batch of decoded lines contributes to the output key `k`, in
/// batch order: each line goes once to its process key (when that output is
/// enabled) and once to its source key, in that order.
pub open spec fn dispatched(lines: Seq<LineModel>, pid_output: bool, k: Seq<u8>) -> Seq<u8>
    decreases lines.len(),
{
    if lines.len() == 0 {
        Seq::empty()
    } else {
        let l = lines[0];
        let per_line = (if pid_output && l.pid == k {
            l.content
        } else {
            Seq::<u8>::empty()
        }).add(
            if l.src == k {
                l.content
            } else {
                Seq::<u8>::empty()
            },
        );
        per_line.add(dispatched(lines.drop_first(), pid_output, k))
    }
}

/// Lines of an earlier batch land before lines of a later batch, for every
/// key: dispatching batch after batch concatenates their contributions in
/// batch order. With batches decoded from input files in ascending file id,
/// records of one source therefore appear in its output in file id order.
pub proof fn lemma_dispatched_append(s1: Seq<LineModel>, s2: Seq<LineModel>, pid_output: bool, k: Seq<u8>)
    ensures
        dispatched(s1.add(s2), pid_output, k) == dispatched(s1, pid_output, k).add(
            dispatched(s2, pid_output, k),
        ),
    decreases s1.len(),
{
    if s1.len() == 0 {
        assert(s1.add(s2) =~= s2);
        assert(Seq::<u8>::empty().add(dispatched(s2, pid_output, k)) =~= dispatched(
            s2,
            pid_output,
            k,
        ));
    } else {
        assert(s1.add(s2)[0] == s1[0]);
        assert(s1.add(s2).drop_first() =~= s1.drop_first().add(s2));
        lemma_dispatched_append(s1.drop_first(), s2, pid_output, k);
        let l = s1[0];
        let per_line = (if pid_output && l.pid == k {
            l.content
        } else {
            Seq::<u8>::empty()
        }).add(
            if l.src == k {
                l.content
            } else {
                Seq::<u8>::empty()
            },
        );
        assert(per_line.add(
            dispatched(s1.drop_first(), pid_output, k).add(dispatched(s2, pid_output, k)),
        ) =~= per_line.add(dispatched(s1.drop_first(), pid_output, k)).add(
            dispatched(s2, pid_output, k),
        ));
    }
}

/// One line's contribution is part of the whole batch's: the batch text
/// for a key is at least the text before a line plus that line's own share.
proof fn lemma_dispatched_take_len(s: Seq<LineModel>, n: int, pid_output: bool, k: Seq<u8>)
    requires
        0 <= n < s.len(),
    ensures
        dispatched(s, pid_output, k).len() >= dispatched(s.take(n), pid_output, k).len() + (
        if pid_output && s[n].pid == k {
            s[n].content.len() as int
        } else {
            0int
        }) + (
        if s[n].src == k {
            s[n].content.len() as int
        } else {
            0int
        }),
{
    assert(s =~= s.take(n + 1).add(s.skip(n + 1)));
    lemma_dispatched_append(s.take(n + 1), s.skip(n + 1), pid_output, k);
    assert(s.take(n + 1) =~= s.take(n).add(seq![s[n]]));
    lemma_dispatched_append(s.take(n), seq![s[n]], pid_output, k);
    assert(seq![s[n]].drop_first() =~= Seq::<LineModel>::empty());
    assert(dispatched(Seq::<LineModel>::empty(), pid_output, k) == Seq::<u8>::empty());
    assert(seq![s[n]][0] == s[n]);
}

/// Routes one batch of decoded lines into the writer, each line keyed by
/// its process id first (when enabled) and by its source always. An empty
/// batch always succeeds, and so does any batch that keeps every key's
/// accumulation within the flush threshold, since no physical write happens
/// then; a failure can only come out of a physical flush, and leaves every
/// key but the failing line's two carrying exactly the lines before it.
#[verifier::rlimit(50)]
pub fn dispatch_lines<T: FileWriter>(
    out: &mut CachedWriter<T>,
    lines: &Vec<LogLine>,
    pid_output: bool,
) -> (r: Result<(), WriteError>)
    requires
        old(out).wf(),
    ensures
        final(out).folder() == old(out).folder(),
        r is Ok ==> final(out).wf(),
        r is Ok ==> forall|k: Seq<u8>|
            #[trigger] final(out).total_of(k) == old(out).total_of(k).add(
                dispatched(lines.deep_view(), pid_output, k),
            ),
        lines.deep_view().len() == 0 ==> r is Ok,
        (forall|k: Seq<u8>|
            #![trigger dispatched(lines.deep_view(), pid_output, k)]
            old(out).buf_of(k).len() + dispatched(lines.deep_view(), pid_output, k).len()
                <= OUTPUT_FLUSH_THRESHOLD) ==> r is Ok,
        r is Err ==> lines.deep_view().len() > 0 && exists|n: int|
            #![trigger lines.deep_view().take(n)]
            0 <= n < lines.deep_view().len() && (forall|k: Seq<u8>|
                k != lines.deep_view()[n].pid && k != lines.deep_view()[n].src
                    ==> #[trigger] final(out).total_of(k) == old(out).total_of(k).add(
                    dispatched(lines.deep_view().take(n), pid_output, k),
                )),
{
    let ghost lv = lines.deep_view();
    let mut i: usize = 0;
    proof {
        assert(lv.take(0) =~= Seq::<LineModel>::empty());
        assert forall|k: Seq<u8>| true implies #[trigger] out.total_of(k) == old(out).total_of(
            k,
        ).add(dispatched(lv.take(0), pid_output, k)) by {
            assert(old(out).total_of(k).add(Seq::<u8>::empty()) =~= old(out).total_of(k));
        }
    }
    while i < lines.len()
        invariant
            i <= lines.len(),
            lv == lines.deep_view(),
            out.wf(),
            out.folder() == old(out).folder(),
            forall|k: Seq<u8>|
                #[trigger] out.total_of(k) == old(out).total_of(k).add(
                    dispatched(lv.take(i as int), pid_output, k),
                ),
            forall|k: Seq<u8>|
                #[trigger] out.buf_of(k).len() <= old(out).buf_of(k).len() + dispatched(
                    lv.take(i as int),
                    pid_output,
                    k,
                ).len(),
        decreases lines.len() - i,
    {
        let ghost st0 = *out;
        let ghost l = lv[i as int];
        proof {
            assert(lines@[i as int]@ == l) by {
                assert(lines.deep_view()[i as int] == lines@[i as int].deep_view());
            }
        }
        if pid_output {
            match out.write(&lines[i].pid, &lines[i].content) {
                Ok(_) => {},
                Err(e) => {
                    proof {
                        lemma_dispatched_take_len(lv, i as int, pid_output, l.pid);
                        assert(st0.buf_of(l.pid).len() <= old(out).buf_of(l.pid).len()
                            + dispatched(lv.take(i as int), pid_output, l.pid).len());
                        assert(old(out).buf_of(l.pid).len() + dispatched(
                            lv,
                            pid_output,
                            l.pid,
                        ).len() > OUTPUT_FLUSH_THRESHOLD);
                        assert forall|k: Seq<u8>| k != l.pid && k != l.src implies #[trigger] out
                            .total_of(k) == old(out).total_of(k).add(
                            dispatched(lv.take(i as int), pid_output, k),
                        ) by {
                            assert(out.total_of(k) == st0.total_of(k));
                            assert(st0.total_of(k) == old(out).total_of(k).add(
                                dispatched(lv.take(i as int), pid_output, k),
                            ));
                        }
                        assert(l == lv[i as int]);
                        assert(0 <= (i as int) < lv.len());
                    }
                    return Err(e);
                },
            }
        }
        let ghost st1 = *out;
        match out.write(&lines[i].src, &lines[i].content) {
            Ok(_) => {},
            Err(e) => {
                proof {
                    lemma_dispatched_take_len(lv, i as int, pid_output, l.src);
                    assert(st0.buf_of(l.src).len() <= old(out).buf_of(l.src).len() + dispatched(
                        lv.take(i as int),
                        pid_output,
                        l.src,
                    ).len());
                    if pid_output {
                        assert(st1.buf_of(l.src).len() <= st0.buf_of(l.src).len() + (
                        if l.pid == l.src {
                            l.content.len() as int
                        } else {
                            0int
                        })) by {
                            if l.pid != l.src {
                                assert(st1.buf_of(l.src) == st0.buf_of(l.src));
                            }
                        }
                    } else {
                        assert(st1.buf_of(l.src) == st0.buf_of(l.src));
                    }
                    assert(old(out).buf_of(l.src).len() + dispatched(
                        lv,
                        pid_output,
                        l.src,
                    ).len() > OUTPUT_FLUSH_THRESHOLD);
                    assert forall|k: Seq<u8>| k != l.pid && k != l.src implies #[trigger] out
                        .total_of(k) == old(out).total_of(k).add(
                        dispatched(lv.take(i as int), pid_output, k),
                    ) by {
                        assert(out.total_of(k) == st1.total_of(k));
                        if pid_output {
                            assert(st1.total_of(k) == st0.total_of(k));
                        }
                        assert(st0.total_of(k) == old(out).total_of(k).add(
                            dispatched(lv.take(i as int), pid_output, k),
                        ));
                    }
                    assert(l == lv[i as int]);
                    assert(0 <= (i as int) < lv.len());
                }
                return Err(e);
            },
        }
        proof {
            assert(lv.take(i + 1) =~= lv.take(i as int).push(l));
            assert(lv.take(i as int).push(l) =~= lv.take(i as int).add(seq![l]));
            assert forall|k: Seq<u8>| true implies #[trigger] out.total_of(k) == old(
                out,
            ).total_of(k).add(dispatched(lv.take(i + 1), pid_output, k)) by {
                lemma_dispatched_append(lv.take(i as int), seq![l], pid_output, k);
                let per_line = (if pid_output && l.pid == k {
                    l.content
                } else {
                    Seq::<u8>::empty()
                }).add(
                    if l.src == k {
                        l.content
                    } else {
                        Seq::<u8>::empty()
                    },
                );
                assert(seq![l].drop_first() =~= Seq::<LineModel>::empty());
                assert(dispatched(Seq::<LineModel>::empty(), pid_output, k) == Seq::<u8>::empty());
                assert(seq![l][0] == l);
                assert(dispatched(seq![l], pid_output, k) == per_line.add(Seq::<u8>::empty()));
                assert(per_line.add(Seq::<u8>::empty()) =~= per_line);
                assert(st0.total_of(k) == old(out).total_of(k).add(
                    dispatched(lv.take(i as int), pid_output, k),
                ));
                if pid_output {
                    assert(st1.total_of(k) == if k == l.pid {
                        st0.total_of(k).add(l.content)
                    } else {
                        st0.total_of(k)
                    });
                } else {
                    assert(st1.total_of(k) == st0.total_of(k));
                }
                assert(out.total_of(k) == if k == l.src {
                    st1.total_of(k).add(l.content)
                } else {
                    st1.total_of(k)
                });
                assert(out.total_of(k) =~= old(out).total_of(k).add(
                    dispatched(lv.take(i as int), pid_output, k),
                ).add(per_line));
                assert(old(out).total_of(k).add(
                    dispatched(lv.take(i as int), pid_output, k),
                ).add(per_line) =~= old(out).total_of(k).add(
                    dispatched(lv.take(i as int), pid_output, k).add(per_line),
                ));
            }
            assert forall|k: Seq<u8>| true implies #[trigger] out.buf_of(k).len() <= old(
                out,
            ).buf_of(k).len() + dispatched(lv.take(i + 1), pid_output, k).len() by {
                lemma_dispatched_append(lv.take(i as int), seq![l], pid_output, k);
                let per_line = (if pid_output && l.pid == k {
                    l.content
                } else {
                    Seq::<u8>::empty()
                }).add(
                    if l.src == k {
                        l.content
                    } else {
                        Seq::<u8>::empty()
                    },
                );
                assert(seq![l].drop_first() =~= Seq::<LineModel>::empty());
                assert(dispatched(Seq::<LineModel>::empty(), pid_output, k) == Seq::<u8>::empty());
                assert(seq![l][0] == l);
                assert(dispatched(seq![l], pid_output, k) == per_line.add(Seq::<u8>::empty()));
                assert(per_line.add(Seq::<u8>::empty()) =~= per_line);
                assert(st0.buf_of(k).len() <= old(out).buf_of(k).len() + dispatched(
                    lv.take(i as int),
                    pid_output,
                    k,
                ).len());
                assert(st1.buf_of(k).len() <= st0.buf_of(k).len() + (if pid_output && l.pid == k {
                    l.content.len() as int
                } else {
                    0int
                })) by {
                    if pid_output {
                        if k != l.pid {
                            assert(st1.buf_of(k) == st0.buf_of(k));
                        }
                    } else {
                        assert(st1.buf_of(k) == st0.buf_of(k));
                    }
                }
                assert(out.buf_of(k).len() <= st1.buf_of(k).len() + (if l.src == k {
                    l.content.len() as int
                } else {
                    0int
                })) by {
                    if k != l.src {
                        assert(out.buf_of(k) == st1.buf_of(k));
                    }
                }
            }
        }
        i = i + 1;
    }
    proof {
        assert(lv.take(lv.len() as int) =~= lv);
    }
    Ok(())
}

/// The concatenation of the rendered text of every line, in order: what a
/// single input file's decoded records look like written out one after the
/// other.
pub open spec fn rendered(lines: Seq<LineModel>) -> Seq<u8>
    decreases lines.len(),
{
    if lines.len() == 0 {
        Seq::empty()
    } else {
        lines[0].content.add(rendered(lines.drop_first()))
    }
}

/// Joins a batch of decoded lines into one output text.
pub fn render_all(lines: &Vec<LogLine>) -> (r: Vec<u8>)
    ensures
        r@ == rendered(lines.deep_view()),
{
    let ghost lv = lines.deep_view();
    let mut r: Vec<u8> = Vec::new();
    let mut i: usize = 0;
    proof {
        assert(lv.take(0) =~= Seq::<LineModel>::empty());
        assert(r@ =~= rendered(lv.take(0)));
    }
    while i < lines.len()
        invariant
            i <= lines.len(),
            lv == lines.deep_view(),
            r@ == rendered(lv.take(i as int)),
        decreases lines.len() - i,
    {
        proof {
            assert(lines@[i as int]@ == lv[i as int]) by {
                assert(lines.deep_view()[i as int] == lines@[i as int].deep_view());
            }
        }
        push_bytes(&mut r, &lines[i].content);
        proof {
            assert(lv.take(i + 1) =~= lv.take(i as int).add(seq![lv[i as int]]));
            lemma_rendered_append(lv.take(i as int), seq![lv[i as int]]);
            assert(seq![lv[i as int]].drop_first() =~= Seq::<LineModel>::empty());
            assert(rendered(Seq::<LineModel>::empty()) == Seq::<u8>::empty());
            assert(seq![lv[i as int]][0] == lv[i as int]);
            assert(rendered(seq![lv[i as int]]) == lv[i as int].content.add(Seq::<u8>::empty()));
            assert(lv[i as int].content.add(Seq::<u8>::empty()) =~= lv[i as int].content);
        }
        i = i + 1;
    }
    proof {
        assert(lv.take(lv.len() as int) =~= lv);
    }
    r
}

proof fn lemma_rendered_append(s1: Seq<LineModel>, s2: Seq<LineModel>)
    ensures
        rendered(s1.add(s2)) == rendered(s1).add(rendered(s2)),
    decreases s1.len(),
{
    if s1.len() == 0 {
        assert(s1.add(s2) =~= s2);
        assert(Seq::<u8>::empty().add(rendered(s2)) =~= rendered(s2));
    } else {
        assert(s1.add(s2)[0] == s1[0]);
        assert(s1.add(s2).drop_first() =~= s1.drop_first().add(s2));
        lemma_rendered_append(s1.drop_first(), s2);
        assert(s1[0].content.add(rendered(s1.drop_first()).add(rendered(s2))) =~= s1[0].content.add(
            rendered(s1.drop_first()),
        ).add(rendered(s2)));
    }
}

} // verus!

