//! The in-editor command grammar: `q` quits, `e <file>` loads, `w [file]`
//! saves, `wq [file]` saves then quits. A command line is split on blanks;
//! only the verb and its first argument matter.

use vstd::prelude::*;

verus! {

/// A blank: what separates command tokens.
pub open spec fn is_blank(c: char) -> bool {
    c == ' ' || c == '\t'
}

/// The blank-separated tokens of a character sequence, in order, without
/// empties.
pub open spec fn tokens_of(s: Seq<char>) -> Seq<Seq<char>>
    decreases s.len(),
{
    if s.len() == 0 {
        seq![]
    } else if is_blank(s[0]) {
        tokens_of(s.drop_first())
    } else if s.len() == 1 || is_blank(s[1]) {
        seq![seq![s[0]]] + tokens_of(s.drop_first())
    } else {
        let rest = tokens_of(s.drop_first());
        seq![seq![s[0]] + rest[0]] + rest.drop_first()
    }
}

/// A parsed command: the verb with its argument, `Other` for anything
/// unrecognized (including an all-blank line).
pub enum Command {
    Quit,
    Edit(Option<Vec<char>>),
    Write(Option<Vec<char>>),
    WriteQuit(Option<Vec<char>>),
    Other,
}

/// The mathematical content of a parsed command.
#[verifier::ext_equal]
pub enum CommandModel {
    Quit,
    Edit(Option<Seq<char>>),
    Write(Option<Seq<char>>),
    WriteQuit(Option<Seq<char>>),
    Other,
}

impl View for Command {
    type V = CommandModel;

    open spec fn view(&self) -> CommandModel {
        match self {
            Command::Quit => CommandModel::Quit,
            Command::Edit(a) => CommandModel::Edit(match a {
                Some(v) => Some(v@),
                None => None,
            }),
            Command::Write(a) => CommandModel::Write(match a {
                Some(v) => Some(v@),
                None => None,
            }),
            Command::WriteQuit(a) => CommandModel::WriteQuit(match a {
                Some(v) => Some(v@),
                None => None,
            }),
            Command::Other => CommandModel::Other,
        }
    }
}

/// What a command line means: its verb decides, its second token is the
/// argument, and everything past that is ignored.
pub open spec fn command_of(s: Seq<char>) -> CommandModel {
    let ts = tokens_of(s);
    if ts.len() == 0 {
        CommandModel::Other
    } else {
        let arg: Option<Seq<char>> = if ts.len() >= 2 {
            Some(ts[1])
        } else {
            None
        };
        if ts[0] == seq!['q'] {
            CommandModel::Quit
        } else if ts[0] == seq!['e'] {
            CommandModel::Edit(arg)
        } else if ts[0] == seq!['w'] {
            CommandModel::Write(arg)
        } else if ts[0] == seq!['w', 'q'] {
            CommandModel::WriteQuit(arg)
        } else {
            CommandModel::Other
        }
    }
}

/// How a one-character extension tokenizes, in terms of the tokens of the
/// shorter sequence: a trailing blank changes nothing, a non-blank opens or
/// extends the last token.
proof fn lemma_tokens_snoc(p: Seq<char>, c: char)
    ensures
        is_blank(c) ==> tokens_of(p + seq![c]) == tokens_of(p),
        !is_blank(c) && (p.len() == 0 || is_blank(p[p.len() - 1])) ==> tokens_of(p + seq![c])
            == tokens_of(p) + seq![seq![c]],
        !is_blank(c) && !(p.len() == 0 || is_blank(p[p.len() - 1])) ==> tokens_of(p).len() > 0
            && tokens_of(p + seq![c]) == tokens_of(p).update(
            tokens_of(p).len() - 1,
            tokens_of(p)[tokens_of(p).len() - 1] + seq![c],
        ),
    decreases p.len(),
{
    let e = p + seq![c];
    if p.len() == 0 {
        assert(e =~= seq![c]);
        assert(e.drop_first().len() == 0);
        assert(tokens_of(e.drop_first()) =~~= Seq::<Seq<char>>::empty());
        if is_blank(c) {
            assert(tokens_of(e) =~~= tokens_of(p));
        } else {
            assert(tokens_of(e) =~~= tokens_of(p) + seq![seq![c]]);
        }
    } else {
        lemma_tokens_snoc(p.drop_first(), c);
        assert(e[0] == p[0]);
        assert(e.drop_first() =~= p.drop_first() + seq![c]);
        let q = p.drop_first();
        if q.len() == 0 {
            // p is a single character.
            assert(e.len() == 2 && e[1] == c);
            assert(tokens_of(q) =~~= Seq::<Seq<char>>::empty());
            if is_blank(p[0]) {
                assert(tokens_of(p) =~~= tokens_of(q));
                assert(tokens_of(e) == tokens_of(q + seq![c]));
                if is_blank(c) {
                    assert(tokens_of(e) =~~= tokens_of(p));
                } else {
                    assert(tokens_of(e) =~~= tokens_of(p) + seq![seq![c]]);
                }
            } else {
                assert(tokens_of(p) =~~= seq![seq![p[0]]]);
                if is_blank(c) {
                    assert(tokens_of(e) =~~= seq![seq![p[0]]] + tokens_of(q + seq![c]));
                    assert(tokens_of(q + seq![c]) =~~= Seq::<Seq<char>>::empty());
                    assert(tokens_of(e) =~~= tokens_of(p));
                } else {
                    let rest = tokens_of(q + seq![c]);
                    assert(rest =~~= seq![seq![c]]);
                    assert(tokens_of(e) =~~= seq![seq![p[0]] + seq![c]]);
                    assert(tokens_of(p).update(0, tokens_of(p)[0] + seq![c]) =~~= seq![
                        seq![p[0]] + seq![c],
                    ]);
                }
            }
        } else {
            assert(p[p.len() - 1] == q[q.len() - 1]);
            assert(e[1] == q[0]);
            let rest = tokens_of(q);
            let rest2 = tokens_of(q + seq![c]);
            if is_blank(p[0]) {
                assert(tokens_of(p) == rest);
                assert(tokens_of(e) == rest2);
                if is_blank(c) {
                } else if q.len() == 0 || is_blank(q[q.len() - 1]) {
                } else {
                }
            } else {
                if is_blank(q[0]) {
                    // The first token of p is the single character p[0].
                    assert(tokens_of(p) == seq![seq![p[0]]] + rest);
                    assert(!is_blank(e[0]) && is_blank(e[1]));
                    assert(tokens_of(e) == seq![seq![e[0]]] + rest2);
                    if is_blank(c) {
                        assert(tokens_of(e) =~~= tokens_of(p));
                    } else if is_blank(q[q.len() - 1]) {
                        assert(tokens_of(e) =~~= tokens_of(p) + seq![seq![c]]);
                    } else {
                        // The induction hypothesis gives that q has tokens.
                        assert(rest.len() > 0);
                        let lp = seq![seq![p[0]]] + rest;
                        assert(tokens_of(e) =~~= lp.update(
                            lp.len() - 1,
                            lp[lp.len() - 1] + seq![c],
                        ));
                    }
                } else {
                    // The first token of p continues into q.
                    assert(rest.len() > 0) by {
                        lemma_tokens_nonempty(q);
                    }
                    assert(tokens_of(p) == seq![seq![p[0]] + rest[0]] + rest.drop_first());
                    assert(!is_blank(e[1]));
                    assert(rest2.len() > 0) by {
                        lemma_tokens_nonempty(q + seq![c]);
                    }
                    assert(tokens_of(e) == seq![seq![e[0]] + rest2[0]] + rest2.drop_first());
                    if is_blank(c) {
                        assert(rest2 == rest);
                        assert(tokens_of(e) =~~= tokens_of(p));
                    } else if is_blank(q[q.len() - 1]) {
                        assert(rest2 == rest + seq![seq![c]]);
                        assert(rest2[0] == rest[0]);
                        assert(tokens_of(e) =~~= tokens_of(p) + seq![seq![c]]);
                    } else {
                        assert(rest2 == rest.update(
                            rest.len() - 1,
                            rest[rest.len() - 1] + seq![c],
                        ));
                        let lp = seq![seq![p[0]] + rest[0]] + rest.drop_first();
                        if rest.len() == 1 {
                            assert(rest2[0] == rest[0] + seq![c]);
                            assert(tokens_of(e) =~~= lp.update(
                                lp.len() - 1,
                                lp[lp.len() - 1] + seq![c],
                            ));
                        } else {
                            assert(rest2[0] == rest[0]);
                            assert(rest2.drop_first() =~~= rest.drop_first().update(
                                rest.drop_first().len() - 1,
                                rest.drop_first()[rest.drop_first().len() - 1] + seq![c],
                            ));
                            assert(tokens_of(e) =~~= lp.update(
                                lp.len() - 1,
                                lp[lp.len() - 1] + seq![c],
                            ));
                        }
                    }
                }
            }
        }
    }
}

/// A sequence that opens with a non-blank has at least one token.
proof fn lemma_tokens_nonempty(s: Seq<char>)
    requires
        s.len() > 0,
        !is_blank(s[0]),
    ensures
        tokens_of(s).len() > 0,
{
}

/// Splits a character sequence into its blank-separated tokens, pinned to
/// `tokens_of`.
pub fn tokenize(s: &Vec<char>) -> (ts: Vec<Vec<char>>)
    ensures
        ts.deep_view() == tokens_of(s@),
{
    let mut ts: Vec<Vec<char>> = Vec::new();
    let mut cur: Vec<char> = Vec::new();
    let mut i: usize = 0;
    proof {
        assert(s@.take(0) =~= Seq::<char>::empty());
    }
    while i < s.len()
        invariant
            i <= s@.len(),
            (i == 0 || is_blank(s@[i as int - 1])) ==> cur@.len() == 0 && tokens_of(
                s@.take(i as int),
            ) == ts.deep_view(),
            !(i == 0 || is_blank(s@[i as int - 1])) ==> cur@.len() > 0 && tokens_of(
                s@.take(i as int),
            ) == ts.deep_view() + seq![cur@],
        decreases s@.len() - i,
    {
        let c = s[i];
        proof {
            let p = s@.take(i as int);
            lemma_tokens_snoc(p, c);
            assert(s@.take(i as int + 1) =~= p + seq![c]);
        }
        if is_blank_exec(c) {
            if cur.len() > 0 {
                ts.push(cur);
                cur = Vec::new();
            }
            proof {
                assert(tokens_of(s@.take(i as int + 1)) =~~= ts.deep_view());
            }
        } else {
            cur.push(c);
            proof {
                if ts.deep_view().len() > 0 || cur@.len() > 1 {
                }
                assert(tokens_of(s@.take(i as int + 1)) =~~= ts.deep_view() + seq![cur@]);
            }
        }
        i += 1;
    }
    proof {
        assert(s@.take(s@.len() as int) =~= s@);
    }
    if cur.len() > 0 {
        ts.push(cur);
        proof {
            assert(ts.deep_view() =~~= tokens_of(s@));
        }
    }
    ts
}

/// Whether a character separates tokens, pinned to `is_blank`.
fn is_blank_exec(c: char) -> (r: bool)
    ensures
        r == is_blank(c),
{
    c == ' ' || c == '\t'
}

/// Parses a command line into its verb and argument, pinned to `command_of`.
pub fn parse_command(s: &Vec<char>) -> (r: Command)
    ensures
        r@ == command_of(s@),
{
    let ts = tokenize(s);
    if ts.len() == 0 {
        proof {
            assert(tokens_of(s@).len() == 0);
        }
        return Command::Other;
    }
    proof {
        assert(ts.deep_view()[0] == ts@[0]@);
        if ts@.len() >= 2 {
            assert(ts.deep_view()[1] == ts@[1]@);
        }
    }
    let verb = &ts[0];
    let is_q = verb.len() == 1 && *char_at(verb, 0) == 'q';
    let is_e = verb.len() == 1 && *char_at(verb, 0) == 'e';
    let is_w = verb.len() == 1 && *char_at(verb, 0) == 'w';
    let is_wq = verb.len() == 2 && *char_at(verb, 0) == 'w' && *char_at(verb, 1) == 'q';
    proof {
        let v = ts.deep_view()[0];
        if is_q {
            assert(v =~= seq!['q']);
        } else {
            assert(v != seq!['q']);
        }
        if is_e {
            assert(v =~= seq!['e']);
        } else {
            assert(v != seq!['e']);
        }
        if is_w {
            assert(v =~= seq!['w']);
        } else {
            assert(v != seq!['w']);
        }
        if is_wq {
            assert(v =~= seq!['w', 'q']);
        } else {
            assert(v != seq!['w', 'q']);
        }
    }
    if is_q {
        return Command::Quit;
    }
    let arg: Option<Vec<char>> = if ts.len() >= 2 {
        let mut a: Vec<char> = Vec::new();
        let second = &ts[1];
        let mut j: usize = 0;
        while j < second.len()
            invariant
                j <= second@.len(),
                a@ == second@.take(j as int),
            decreases second@.len() - j,
        {
            a.push(second[j]);
            proof {
                assert(a@ =~= second@.take(j as int + 1));
            }
            j += 1;
        }
        proof {
            assert(second@.take(second@.len() as int) =~= second@);
        }
        Some(a)
    } else {
        None
    };
    if is_e {
        Command::Edit(arg)
    } else if is_w {
        Command::Write(arg)
    } else if is_wq {
        Command::WriteQuit(arg)
    } else {
        Command::Other
    }
}

/// Reads one character of a token.
fn char_at(v: &Vec<char>, i: usize) -> (r: &char)
    requires
        i < v@.len(),
    ensures
        *r == v@[i as int],
{
    &v[i]
}

} // verus!
