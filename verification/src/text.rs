//! The pure text side of loading and saving: a document is split strictly on
//! line boundaries into the buffer, and the buffer is joined back with `'\n'`.
//! A trailing newline acts as a line terminator, not a separator, so joining
//! reproduces the document up to that normalization.

use vstd::prelude::*;

verus! {

/// The lines of a character sequence, split on `'\n'`; a trailing newline
/// terminates the last line rather than opening an empty one.
pub open spec fn line_split(t: Seq<char>) -> Seq<Seq<char>>
    decreases t.len(),
{
    if t.len() == 0 {
        seq![]
    } else {
        let rest = line_split(t.drop_first());
        if t[0] == '\n' {
            seq![Seq::<char>::empty()] + rest
        } else {
            if rest.len() == 0 {
                seq![seq![t[0]]]
            } else {
                seq![seq![t[0]] + rest[0]] + rest.drop_first()
            }
        }
    }
}

/// What loading a document puts in the buffer: its lines, or one empty line
/// when the document is empty, so the buffer is never empty.
pub open spec fn doc_lines(t: Seq<char>) -> Seq<Seq<char>> {
    if line_split(t).len() == 0 {
        seq![Seq::<char>::empty()]
    } else {
        line_split(t)
    }
}

/// Lines joined with a single `'\n'` between consecutive lines.
pub open spec fn line_join(ls: Seq<Seq<char>>) -> Seq<char>
    decreases ls.len(),
{
    if ls.len() == 0 {
        seq![]
    } else if ls.len() == 1 {
        ls[0]
    } else {
        ls[0] + seq!['\n'] + line_join(ls.drop_first())
    }
}

/// A document with its trailing newline, if any, removed.
pub open spec fn strip_trailing_newline(t: Seq<char>) -> Seq<char> {
    if t.len() > 0 && t[t.len() - 1] == '\n' {
        t.drop_last()
    } else {
        t
    }
}

/// Splitting a non-empty document yields at least one line.
proof fn lemma_split_nonempty(t: Seq<char>)
    requires
        t.len() > 0,
    ensures
        line_split(t).len() > 0,
{
}

/// Joining the loaded lines of a document gives the document back, up to the
/// normalization of a trailing newline.
pub proof fn lemma_load_save_round_trip(t: Seq<char>)
    ensures
        line_join(doc_lines(t)) == strip_trailing_newline(t),
    decreases t.len(),
{
    if t.len() == 0 {
        assert(line_join(doc_lines(t)) =~~= strip_trailing_newline(t));
    } else if t.len() == 1 {
        assert(t.drop_first().len() == 0);
        assert(line_split(t.drop_first()) =~~= Seq::<Seq<char>>::empty());
        if t[0] == '\n' {
            assert(line_split(t) =~~= seq![Seq::<char>::empty()]);
            assert(line_join(doc_lines(t)) =~~= strip_trailing_newline(t));
        } else {
            assert(line_split(t) =~~= seq![seq![t[0]]]);
            assert(line_join(doc_lines(t)) =~~= t);
            assert(strip_trailing_newline(t) == t);
        }
    } else {
        let tail = t.drop_first();
        lemma_load_save_round_trip(tail);
        lemma_split_nonempty(tail);
        let rest = line_split(tail);
        assert(doc_lines(tail) == rest);
        // The last characters of `t` and of its tail agree.
        assert(t[t.len() - 1] == tail[tail.len() - 1]);
        if t[0] == '\n' {
            assert(line_split(t) == seq![Seq::<char>::empty()] + rest);
            assert(line_split(t).len() >= 2);
            assert((seq![Seq::<char>::empty()] + rest).drop_first() =~~= rest);
            assert(line_join(line_split(t)) =~~= seq!['\n'] + line_join(rest));
            if tail[tail.len() - 1] == '\n' {
                assert(strip_trailing_newline(t) =~~= seq!['\n'] + strip_trailing_newline(tail));
            } else {
                assert(strip_trailing_newline(t) =~~= seq!['\n'] + strip_trailing_newline(tail));
            }
            assert(line_join(doc_lines(t)) == strip_trailing_newline(t));
        } else {
            let joined = seq![seq![t[0]] + rest[0]] + rest.drop_first();
            assert(line_split(t) == joined);
            if rest.len() == 1 {
                assert(joined.len() == 1);
                assert(line_join(joined) == seq![t[0]] + rest[0]);
                assert(line_join(rest) == rest[0]);
                assert(line_join(joined) =~~= seq![t[0]] + line_join(rest));
            } else {
                assert(joined.len() >= 2);
                assert(joined.drop_first() =~~= rest.drop_first());
                assert(line_join(joined) == joined[0] + seq!['\n'] + line_join(
                    joined.drop_first(),
                ));
                assert(line_join(joined) =~~= seq![t[0]] + (rest[0] + seq!['\n'] + line_join(
                    rest.drop_first(),
                )));
                assert(line_join(joined) =~~= seq![t[0]] + line_join(rest));
            }
            assert(line_join(line_split(t)) =~~= seq![t[0]] + strip_trailing_newline(tail));
            assert(strip_trailing_newline(t) =~~= seq![t[0]] + strip_trailing_newline(tail));
        }
    }
}

/// How a one-character extension of a document splits, in terms of the split
/// of the document itself.
proof fn lemma_split_snoc(p: Seq<char>, c: char)
    ensures
        c == '\n' && (p.len() == 0 || p[p.len() - 1] == '\n') ==> line_split(p + seq![c])
            == line_split(p) + seq![Seq::<char>::empty()],
        c == '\n' && !(p.len() == 0 || p[p.len() - 1] == '\n') ==> line_split(p + seq![c])
            == line_split(p),
        c != '\n' && (p.len() == 0 || p[p.len() - 1] == '\n') ==> line_split(p + seq![c])
            == line_split(p) + seq![seq![c]],
        c != '\n' && !(p.len() == 0 || p[p.len() - 1] == '\n') ==> line_split(p + seq![c])
            == line_split(p).update(
            line_split(p).len() - 1,
            line_split(p)[line_split(p).len() - 1] + seq![c],
        ),
    decreases p.len(),
{
    if p.len() == 0 {
        assert(p + seq![c] =~~= seq![c]);
        assert(seq![c].drop_first().len() == 0);
        assert(line_split(seq![c].drop_first()) =~~= Seq::<Seq<char>>::empty());
        if c == '\n' {
            assert(line_split(seq![c]) =~~= seq![Seq::<char>::empty()]);
            assert(line_split(p) + seq![Seq::<char>::empty()] =~~= seq![Seq::<char>::empty()]);
        } else {
            assert(line_split(seq![c]) =~~= seq![seq![c]]);
            assert(line_split(p) + seq![seq![c]] =~~= seq![seq![c]]);
        }
    } else {
        let q = p.drop_first();
        lemma_split_snoc(q, c);
        if q.len() > 0 {
            lemma_split_nonempty(q);
        }
        assert((p + seq![c]).drop_first() =~~= q + seq![c]);
        assert((p + seq![c])[0] == p[0]);
        if q.len() == 0 {
            // p is a single character.
            assert(p =~~= seq![p[0]]);
            if p[0] == '\n' {
                assert(line_split(p) =~~= seq![Seq::<char>::empty()]);
                assert(line_split(p + seq![c]) == seq![Seq::<char>::empty()] + line_split(
                    seq![c],
                ));
                if c == '\n' {
                    assert(line_split(p + seq![c]) =~~= line_split(p) + seq![
                        Seq::<char>::empty(),
                    ]);
                } else {
                    assert(line_split(p + seq![c]) =~~= line_split(p) + seq![seq![c]]);
                }
            } else {
                assert(line_split(p) =~~= seq![seq![p[0]]]);
                if c == '\n' {
                    assert(line_split(seq![c]) =~~= seq![Seq::<char>::empty()]);
                    assert(line_split(p + seq![c]) =~~= seq![seq![p[0]] + Seq::<char>::empty()]);
                    assert(seq![seq![p[0]] + Seq::<char>::empty()] =~~= line_split(p));
                } else {
                    assert(line_split(seq![c]) =~~= seq![seq![c]]);
                    assert(line_split(p + seq![c]) =~~= seq![seq![p[0]] + seq![c]]);
                    assert(line_split(p).update(
                        line_split(p).len() - 1,
                        line_split(p)[line_split(p).len() - 1] + seq![c],
                    ) =~~= seq![seq![p[0]] + seq![c]]);
                }
            }
        } else {
            // q is non-empty, so the last characters of p and q agree.
            assert(p[p.len() - 1] == q[q.len() - 1]);
            let rest = line_split(q);
            let rest2 = line_split(q + seq![c]);
            if p[0] == '\n' {
                assert(line_split(p) == seq![Seq::<char>::empty()] + rest);
                assert(line_split(p + seq![c]) == seq![Seq::<char>::empty()] + rest2);
                if c == '\n' {
                    if q[q.len() - 1] == '\n' {
                        assert(seq![Seq::<char>::empty()] + (rest + seq![Seq::<char>::empty()])
                            =~~= (seq![Seq::<char>::empty()] + rest) + seq![Seq::<char>::empty()]);
                    }
                } else {
                    if q[q.len() - 1] == '\n' {
                        assert(seq![Seq::<char>::empty()] + (rest + seq![seq![c]]) =~~= (seq![
                            Seq::<char>::empty(),
                        ] + rest) + seq![seq![c]]);
                    } else {
                        let lp = seq![Seq::<char>::empty()] + rest;
                        assert(seq![Seq::<char>::empty()] + rest.update(
                            rest.len() - 1,
                            rest[rest.len() - 1] + seq![c],
                        ) =~~= lp.update(lp.len() - 1, lp[lp.len() - 1] + seq![c]));
                    }
                }
            } else {
                assert(rest.len() > 0);
                assert(rest2.len() > 0) by {
                    lemma_split_nonempty(q + seq![c]);
                }
                assert(line_split(p) == seq![seq![p[0]] + rest[0]] + rest.drop_first());
                assert(line_split(p + seq![c]) == seq![seq![p[0]] + rest2[0]]
                    + rest2.drop_first());
                if c == '\n' {
                    if q[q.len() - 1] == '\n' {
                        assert(rest2 == rest + seq![Seq::<char>::empty()]);
                        assert(rest2[0] == rest[0]);
                        assert(seq![seq![p[0]] + rest2[0]] + rest2.drop_first() =~~= (seq![
                            seq![p[0]] + rest[0],
                        ] + rest.drop_first()) + seq![Seq::<char>::empty()]);
                    } else {
                        assert(rest2 == rest);
                        assert(line_split(p + seq![c]) == line_split(p));
                    }
                } else {
                    if q[q.len() - 1] == '\n' {
                        assert(rest2 == rest + seq![seq![c]]);
                        assert(rest2[0] == rest[0]);
                        assert(seq![seq![p[0]] + rest2[0]] + rest2.drop_first() =~~= (seq![
                            seq![p[0]] + rest[0],
                        ] + rest.drop_first()) + seq![seq![c]]);
                    } else {
                        assert(rest2 == rest.update(
                            rest.len() - 1,
                            rest[rest.len() - 1] + seq![c],
                        ));
                        let lp = seq![seq![p[0]] + rest[0]] + rest.drop_first();
                        if rest.len() == 1 {
                            assert(rest2[0] == rest[0] + seq![c]);
                            assert(seq![seq![p[0]] + rest2[0]] + rest2.drop_first() =~~= lp.update(
                                lp.len() - 1,
                                lp[lp.len() - 1] + seq![c],
                            ));
                        } else {
                            assert(rest2[0] == rest[0]);
                            assert(rest2.drop_first() =~~= rest.drop_first().update(
                                rest.drop_first().len() - 1,
                                rest.drop_first()[rest.drop_first().len() - 1] + seq![c],
                            ));
                            assert(seq![seq![p[0]] + rest2[0]] + rest2.drop_first() =~~= lp.update(
                                lp.len() - 1,
                                lp[lp.len() - 1] + seq![c],
                            ));
                        }
                    }
                }
            }
        }
    }
}

/// Splits a document into buffer lines on `'\n'`; an empty document becomes a
/// single empty line, so the result is never empty.
pub fn split_lines(text: &Vec<char>) -> (lines: Vec<Vec<char>>)
    ensures
        lines.deep_view() == doc_lines(text@),
        lines.len() >= 1,
{
    let mut lines: Vec<Vec<char>> = Vec::new();
    let mut cur: Vec<char> = Vec::new();
    let mut i: usize = 0;
    while i < text.len()
        invariant
            i <= text.len(),
            (i == 0 || text@[i as int - 1] == '\n') ==> cur@.len() == 0 && line_split(
                text@.take(i as int),
            ) == lines.deep_view(),
            !(i == 0 || text@[i as int - 1] == '\n') ==> line_split(text@.take(i as int))
                == lines.deep_view() + seq![cur@],
        decreases text.len() - i,
    {
        let c = text[i];
        proof {
            let p = text@.take(i as int);
            lemma_split_snoc(p, c);
            assert(text@.take(i as int + 1) =~~= p + seq![c]);
            if !(i == 0 || text@[i as int - 1] == '\n') && c == '\n' {
                assert(line_split(p).len() > 0) by {
                    lemma_split_nonempty(p);
                }
            }
        }
        if c == '\n' {
            lines.push(cur);
            cur = Vec::new();
            proof {
                assert(lines.deep_view() =~~= lines.deep_view());
            }
        } else {
            cur.push(c);
            proof {
                let lp = lines.deep_view() + seq![cur@];
                assert(line_split(text@.take(i as int + 1)) =~~= lp);
            }
        }
        i += 1;
        proof {
            if text@[i as int - 1] == '\n' {
                assert(line_split(text@.take(i as int)) =~~= lines.deep_view());
            }
        }
    }
    proof {
        assert(text@.take(text.len() as int) =~~= text@);
    }
    if lines.len() == 0 && cur.len() == 0 {
        // The document was empty: the buffer still holds one empty line.
        lines.push(cur);
        proof {
            assert(lines.deep_view() =~~= doc_lines(text@));
        }
    } else if text.len() > 0 && text[text.len() - 1] == '\n' {
        // A trailing newline terminates the last line; nothing is pending.
        proof {
            assert(lines.deep_view() =~~= doc_lines(text@));
        }
    } else {
        lines.push(cur);
        proof {
            assert(lines.deep_view() =~~= doc_lines(text@));
        }
    }
    lines
}

/// Extending a line sequence by one more line extends its join by a newline
/// and that line.
proof fn lemma_join_snoc(ls: Seq<Seq<char>>, l: Seq<char>)
    requires
        ls.len() >= 1,
    ensures
        line_join(ls + seq![l]) == line_join(ls) + seq!['\n'] + l,
    decreases ls.len(),
{
    if ls.len() == 1 {
        assert((ls + seq![l]).drop_first() =~~= seq![l]);
        assert(line_join(seq![l]) == l);
        assert(line_join(ls + seq![l]) =~~= ls[0] + seq!['\n'] + l);
    } else {
        lemma_join_snoc(ls.drop_first(), l);
        assert((ls + seq![l]).drop_first() =~~= ls.drop_first() + seq![l]);
        assert(line_join(ls + seq![l]) =~~= line_join(ls) + seq!['\n'] + l);
    }
}

/// Joins buffer lines with a single `'\n'` between consecutive lines; no
/// trailing newline is appended.
pub fn join_lines(lines: &Vec<Vec<char>>) -> (text: Vec<char>)
    ensures
        text@ == line_join(lines.deep_view()),
{
    let mut text: Vec<char> = Vec::new();
    let mut i: usize = 0;
    while i < lines.len()
        invariant
            i <= lines.len(),
            text@ == line_join(lines.deep_view().take(i as int)),
        decreases lines.len() - i,
    {
        if i > 0 {
            text.push('\n');
        }
        let ghost before = text@;
        let line = &lines[i];
        let mut j: usize = 0;
        while j < line.len()
            invariant
                j <= line.len(),
                text@ == before + line@.take(j as int),
            decreases line.len() - j,
        {
            text.push(line[j]);
            proof {
                assert(text@ =~~= before + line@.take(j as int + 1));
            }
            j += 1;
        }
        proof {
            assert(line@.take(line@.len() as int) =~~= line@);
            let dv = lines.deep_view();
            assert(dv[i as int] == lines[i as int]@);
            if i == 0 {
                assert(dv.take(1) =~~= seq![dv[0]]);
                assert(line_join(dv.take(1)) == dv[0]);
                assert(text@ =~~= line_join(dv.take(1)));
            } else {
                lemma_join_snoc(dv.take(i as int), dv[i as int]);
                assert(dv.take(i as int) + seq![dv[i as int]] =~~= dv.take(i as int + 1));
                assert(text@ =~~= line_join(dv.take(i as int + 1)));
            }
        }
        i += 1;
    }
    proof {
        assert(lines.deep_view().take(lines.len() as int) =~~= lines.deep_view());
    }
    text
}

} // verus!
