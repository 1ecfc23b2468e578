//! The keybinding specification language: a mode selector over `n`, `v`,
//! `c`, `i`, and a sequence string where ordinary characters are literal
//! unmodified presses and a bracketed token names a key, optionally behind a
//! `C-`, `S-` or `A-` modifier prefix. An unrecognized key name fails the
//! whole sequence.

use vstd::prelude::*;

use crate::keys::{KeyCode, KeyInput, Mode};

verus! {

/// The index of the first occurrence of a character at or after `from`, or
/// the length when there is none.
pub open spec fn find_char_from(s: Seq<char>, c: char, from: int) -> int
    decreases s.len() - from,
{
    if from < 0 || from >= s.len() {
        s.len() as int
    } else if s[from] == c {
        from
    } else {
        find_char_from(s, c, from + 1)
    }
}

/// Whether a character is a decimal digit.
pub open spec fn is_digit(c: char) -> bool {
    48 <= c as u32 && c as u32 <= 57
}

/// Whether a sequence is all decimal digits.
pub open spec fn all_digits(s: Seq<char>) -> bool {
    forall|i: int| 0 <= i < s.len() ==> is_digit(s[i])
}

/// The decimal value of a digit sequence.
pub open spec fn digits_num(s: Seq<char>) -> int
    decreases s.len(),
{
    if s.len() == 0 {
        0
    } else {
        digits_num(s.drop_last()) * 10 + (s.last() as u32 - 48)
    }
}

/// The key a bare name (after any modifier prefix) denotes: the fixed table
/// of named keys, `F` plus digits for a function key, or a single literal
/// character; anything else is unrecognized.
pub open spec fn named_key(base: Seq<char>) -> Option<KeyCode> {
    if base == seq!['B', 'S'] {
        Some(KeyCode::Backspace)
    } else if base == seq!['T', 'a', 'b'] {
        Some(KeyCode::Tab)
    } else if base == seq!['C', 'R'] || base == seq!['E', 'n', 't', 'e', 'r'] || base == seq![
        'R',
        'e',
        't',
        'u',
        'r',
        'n',
    ] {
        Some(KeyCode::Enter)
    } else if base == seq!['E', 's', 'c'] {
        Some(KeyCode::Esc)
    } else if base == seq!['S', 'p', 'a', 'c', 'e'] {
        Some(KeyCode::Char(' '))
    } else if base == seq!['U', 'p'] {
        Some(KeyCode::Up)
    } else if base == seq!['D', 'o', 'w', 'n'] {
        Some(KeyCode::Down)
    } else if base == seq!['L', 'e', 'f', 't'] {
        Some(KeyCode::Left)
    } else if base == seq!['R', 'i', 'g', 'h', 't'] {
        Some(KeyCode::Right)
    } else if base == seq!['I', 'n', 's', 'e', 'r', 't'] {
        Some(KeyCode::Insert)
    } else if base == seq!['D', 'e', 'l'] {
        Some(KeyCode::Delete)
    } else if base == seq!['H', 'o', 'm', 'e'] {
        Some(KeyCode::Home)
    } else if base == seq!['E', 'n', 'd'] {
        Some(KeyCode::End)
    } else if base == seq!['P', 'a', 'g', 'e', 'U', 'p'] {
        Some(KeyCode::PageUp)
    } else if base == seq!['P', 'a', 'g', 'e', 'D', 'o', 'w', 'n'] {
        Some(KeyCode::PageDown)
    } else if base.len() >= 2 && base[0] == 'F' && all_digits(base.skip(1)) && digits_num(
        base.skip(1),
    ) <= 255 {
        Some(KeyCode::F(digits_num(base.skip(1)) as u8))
    } else if base.len() == 1 {
        Some(KeyCode::Char(base[0]))
    } else {
        None
    }
}

/// The chord a bracketed token denotes: an optional one-letter modifier
/// prefix before a dash (any other prefix means no modifier), then a key
/// name from the table.
pub open spec fn token_key(name: Seq<char>) -> Option<KeyInput> {
    let d = find_char_from(name, '-', 0);
    let mods: Seq<char> = if d < name.len() {
        name.take(d)
    } else {
        Seq::<char>::empty()
    };
    let base: Seq<char> = if d < name.len() {
        name.skip(d + 1)
    } else {
        name
    };
    match named_key(base) {
        Some(code) => Some(
            KeyInput {
                code,
                ctrl: mods == seq!['C'],
                alt: mods == seq!['A'],
                shift: mods == seq!['S'],
            },
        ),
        None => None,
    }
}

/// The chord sequence a binding string denotes: ordinary characters are
/// literal unmodified presses, `<`…`>` wraps a named token (an unclosed `<`
/// takes the rest of the string as the name), and one unrecognized token
/// fails the whole sequence.
pub open spec fn keys_of(s: Seq<char>) -> Option<Seq<KeyInput>>
    decreases s.len(),
{
    if s.len() == 0 {
        Some(Seq::<KeyInput>::empty())
    } else if s[0] == '<' {
        let e0 = find_char_from(s, '>', 1);
        let e = if 1 <= e0 <= s.len() {
            e0
        } else {
            s.len() as int
        };
        let name = s.subrange(1, e);
        let rest: Seq<char> = if e < s.len() {
            s.subrange(e + 1, s.len() as int)
        } else {
            Seq::<char>::empty()
        };
        match token_key(name) {
            Some(k) => match keys_of(rest) {
                Some(r) => Some(seq![k] + r),
                None => None,
            },
            None => None,
        }
    } else {
        match keys_of(s.drop_first()) {
            Some(r) => Some(
                seq![KeyInput { code: KeyCode::Char(s[0]), ctrl: false, alt: false, shift: false }]
                    + r,
            ),
            None => None,
        }
    }
}

/// The modes a selector string names, in order: `n`, `v`, `c`, `i` map to
/// the four modes and anything else is ignored.
pub open spec fn modes_of(s: Seq<char>) -> Seq<Mode>
    decreases s.len(),
{
    if s.len() == 0 {
        Seq::<Mode>::empty()
    } else {
        let rest = modes_of(s.drop_first());
        if s[0] == 'n' {
            seq![Mode::NORMAL] + rest
        } else if s[0] == 'v' {
            seq![Mode::VISUAL] + rest
        } else if s[0] == 'c' {
            seq![Mode::COMMAND] + rest
        } else if s[0] == 'i' {
            seq![Mode::INSERT] + rest
        } else {
            rest
        }
    }
}

/// A scan that stopped at `c` (or ran out) found `find_char_from`.
proof fn lemma_find_char(s: Seq<char>, c: char, from: int, e: int)
    requires
        0 <= from <= e <= s.len(),
        forall|j: int| from <= j < e ==> s[j] != c,
        e == s.len() || s[e] == c,
    ensures
        find_char_from(s, c, from) == e,
    decreases e - from,
{
    if from < e {
        lemma_find_char(s, c, from + 1, e);
    }
}

/// Parses a mode selector string, pinned to `modes_of`.
pub fn parse_modes(s: &Vec<char>) -> (r: Vec<Mode>)
    ensures
        r@ == modes_of(s@),
{
    let mut out: Vec<Mode> = Vec::new();
    let mut i: usize = 0;
    proof {
        assert(s@.skip(0) =~= s@);
        assert(out@ + modes_of(s@.skip(0)) =~= modes_of(s@));
    }
    while i < s.len()
        invariant
            i <= s@.len(),
            modes_of(s@) == out@ + modes_of(s@.skip(i as int)),
        decreases s@.len() - i,
    {
        let c = s[i];
        proof {
            assert(s@.skip(i as int)[0] == s@[i as int]);
            assert(s@.skip(i as int).drop_first() =~= s@.skip(i as int + 1));
        }
        if c == 'n' {
            out.push(Mode::NORMAL);
        } else if c == 'v' {
            out.push(Mode::VISUAL);
        } else if c == 'c' {
            out.push(Mode::COMMAND);
        } else if c == 'i' {
            out.push(Mode::INSERT);
        }
        proof {
            assert(modes_of(s@) =~= out@ + modes_of(s@.skip(i as int + 1)));
        }
        i += 1;
    }
    proof {
        assert(s@.skip(s@.len() as int).len() == 0);
        assert(modes_of(s@) =~= out@);
    }
    out
}

/// Compares a token against an expected name.
fn name_is(v: &Vec<char>, expected: &Vec<char>) -> (r: bool)
    ensures
        r == (v@ == expected@),
{
    if v.len() != expected.len() {
        proof {
            assert(v@ != expected@);
        }
        return false;
    }
    let mut i: usize = 0;
    while i < v.len()
        invariant
            i <= v@.len(),
            v@.len() == expected@.len(),
            forall|j: int| 0 <= j < i ==> v@[j] == expected@[j],
        decreases v@.len() - i,
    {
        if v[i] != expected[i] {
            proof {
                assert(v@ != expected@);
            }
            return false;
        }
        i += 1;
    }
    proof {
        assert(v@ =~= expected@);
    }
    true
}

/// Builds a name literal to compare against.
fn lit(s: &[char]) -> (r: Vec<char>)
    ensures
        r@ == s@,
{
    let mut r: Vec<char> = Vec::new();
    let mut i: usize = 0;
    proof {
        assert(r@ =~= s@.take(0));
    }
    while i < s.len()
        invariant
            i <= s@.len(),
            r@ == s@.take(i as int),
        decreases s@.len() - i,
    {
        r.push(s[i]);
        proof {
            assert(r@ =~= s@.take(i as int + 1));
        }
        i += 1;
    }
    proof {
        assert(s@.take(s@.len() as int) =~= s@);
    }
    r
}

/// Looks a bare key name up in the fixed table, pinned to `named_key`.
fn named_key_exec(base: &Vec<char>) -> (r: Option<KeyCode>)
    ensures
        r == named_key(base@),
{
    if name_is(base, &lit(&['B', 'S'])) {
        proof {
            assert(base@ =~= seq!['B', 'S']);
        }
        return Some(KeyCode::Backspace);
    }
    if name_is(base, &lit(&['T', 'a', 'b'])) {
        proof {
            assert(base@ =~= seq!['T', 'a', 'b']);
        }
        return Some(KeyCode::Tab);
    }
    if name_is(base, &lit(&['C', 'R'])) || name_is(base, &lit(&['E', 'n', 't', 'e', 'r']))
        || name_is(base, &lit(&['R', 'e', 't', 'u', 'r', 'n'])) {
        return Some(KeyCode::Enter);
    }
    if name_is(base, &lit(&['E', 's', 'c'])) {
        return Some(KeyCode::Esc);
    }
    if name_is(base, &lit(&['S', 'p', 'a', 'c', 'e'])) {
        return Some(KeyCode::Char(' '));
    }
    if name_is(base, &lit(&['U', 'p'])) {
        return Some(KeyCode::Up);
    }
    if name_is(base, &lit(&['D', 'o', 'w', 'n'])) {
        return Some(KeyCode::Down);
    }
    if name_is(base, &lit(&['L', 'e', 'f', 't'])) {
        return Some(KeyCode::Left);
    }
    if name_is(base, &lit(&['R', 'i', 'g', 'h', 't'])) {
        return Some(KeyCode::Right);
    }
    if name_is(base, &lit(&['I', 'n', 's', 'e', 'r', 't'])) {
        return Some(KeyCode::Insert);
    }
    if name_is(base, &lit(&['D', 'e', 'l'])) {
        return Some(KeyCode::Delete);
    }
    if name_is(base, &lit(&['H', 'o', 'm', 'e'])) {
        return Some(KeyCode::Home);
    }
    if name_is(base, &lit(&['E', 'n', 'd'])) {
        return Some(KeyCode::End);
    }
    if name_is(base, &lit(&['P', 'a', 'g', 'e', 'U', 'p'])) {
        return Some(KeyCode::PageUp);
    }
    if name_is(base, &lit(&['P', 'a', 'g', 'e', 'D', 'o', 'w', 'n'])) {
        return Some(KeyCode::PageDown);
    }
    if base.len() >= 2 && base[0] == 'F' {
        // A function key: `F` followed by a small decimal number.
        let mut ok = true;
        let mut val: usize = 0;
        let mut j: usize = 1;
        proof {
            assert(base@.subrange(1, 1).len() == 0);
            assert(digits_num(base@.subrange(1, 1)) == 0);
        }
        while j < base.len()
            invariant
                1 <= j <= base@.len(),
                base@.len() >= 2,
                ok == all_digits(base@.subrange(1, j as int)),
                ok ==> val == (if digits_num(base@.subrange(1, j as int)) > 255 {
                    256int
                } else {
                    digits_num(base@.subrange(1, j as int))
                }),
            decreases base@.len() - j,
        {
            let c = base[j];
            let v = c as u32;
            let ghost pre = base@.subrange(1, j as int);
            let ghost post = base@.subrange(1, j as int + 1);
            proof {
                assert(post.drop_last() =~= pre);
                assert(post.last() == base@[j as int]);
                assert(digits_num(post) == digits_num(pre) * 10 + (base@[j as int] as u32 - 48));
                if ok {
                    lemma_digits_num_nonneg(pre);
                }
                assert(c == base@[j as int]);
            }
            if '0' as u32 <= v && v <= '9' as u32 {
                proof {
                    assert(is_digit(base@[j as int]));
                }
                if ok {
                    let d = (v - '0' as u32) as usize;
                    proof {
                        assert(v == base@[j as int] as u32);
                        assert(d as int == base@[j as int] as u32 - 48);
                        assert(0 <= d <= 9);
                    }
                    if val >= 256 {
                        val = 256;
                        proof {
                            assert(digits_num(pre) > 255);
                            assert(digits_num(pre) * 10 >= 2560);
                            assert(digits_num(post) > 255);
                        }
                    } else {
                        let next = val * 10 + d;
                        proof {
                            assert(val as int == digits_num(pre));
                            assert(next as int == digits_num(post));
                        }
                        val = if next > 255 {
                            256
                        } else {
                            next
                        };
                    }
                }
            } else {
                proof {
                    assert(!is_digit(base@[j as int]));
                }
                ok = false;
            }
            proof {
                let pre = base@.subrange(1, j as int);
                let post = base@.subrange(1, j as int + 1);
                assert(post =~= pre.push(base@[j as int]));
                if all_digits(pre) && is_digit(base@[j as int]) {
                    assert forall|t: int| 0 <= t < post.len() implies is_digit(post[t]) by {
                        if t < pre.len() {
                            assert(post[t] == pre[t]);
                        } else {
                            assert(post[t] == base@[j as int]);
                        }
                    }
                    assert(all_digits(post));
                } else {
                    if !is_digit(base@[j as int]) {
                        assert(post[post.len() - 1] == base@[j as int]);
                        assert(!all_digits(post));
                    } else {
                        let w = choose|w: int| 0 <= w < pre.len() && !is_digit(pre[w]);
                        assert(post[w] == pre[w]);
                        assert(!all_digits(post));
                    }
                }
            }
            j += 1;
        }
        proof {
            assert(base@.subrange(1, base@.len() as int) =~= base@.skip(1));
        }
        if ok && val <= 255 {
            return Some(KeyCode::F(val as u8));
        }
        proof {
            assert(named_key(base@) is None) by {
                assert(base@.len() >= 2);
                assert(base@ != seq!['B', 'S']);
            }
        }
        return None;
    }
    if base.len() == 1 {
        return Some(KeyCode::Char(base[0]));
    }
    None
}

/// Digit values are never negative.
proof fn lemma_digits_num_nonneg(s: Seq<char>)
    requires
        all_digits(s),
    ensures
        digits_num(s) >= 0,
    decreases s.len(),
{
    if s.len() > 0 {
        assert(all_digits(s.drop_last())) by {
            assert forall|i: int| 0 <= i < s.len() - 1 implies is_digit(s.drop_last()[i]) by {
                assert(s.drop_last()[i] == s[i]);
            }
        }
        lemma_digits_num_nonneg(s.drop_last());
    }
}

/// Parses one bracketed token, pinned to `token_key`.
fn token_key_exec(name: &Vec<char>) -> (r: Option<KeyInput>)
    ensures
        r == token_key(name@),
{
    let mut d: usize = 0;
    while d < name.len() && name[d] != '-'
        invariant
            d <= name@.len(),
            forall|j: int| 0 <= j < d ==> name@[j] != '-',
        decreases name@.len() - d,
    {
        d += 1;
    }
    proof {
        lemma_find_char(name@, '-', 0, d as int);
    }
    let (ctrl, alt, shift, base_start): (bool, bool, bool, usize) = if d < name.len() {
        let one = d == 1;
        (
            one && name[0] == 'C',
            one && name[0] == 'A',
            one && name[0] == 'S',
            d + 1,
        )
    } else {
        (false, false, false, 0)
    };
    proof {
        if (d as int) < name@.len() {
            let mods = name@.take(d as int);
            if d == 1 {
                assert(mods =~= seq![name@[0]]);
                assert(seq!['C'][0] == 'C' && seq!['A'][0] == 'A' && seq!['S'][0] == 'S');
                if name@[0] == 'C' {
                    assert(mods =~= seq!['C']);
                } else {
                    assert(mods != seq!['C']);
                }
                if name@[0] == 'A' {
                    assert(mods =~= seq!['A']);
                } else {
                    assert(mods != seq!['A']);
                }
                if name@[0] == 'S' {
                    assert(mods =~= seq!['S']);
                } else {
                    assert(mods != seq!['S']);
                }
            } else {
                assert(mods.len() != 1);
                assert(mods != seq!['C'] && mods != seq!['A'] && mods != seq!['S']);
            }
        }
    }
    let mut base: Vec<char> = Vec::new();
    let mut i: usize = base_start;
    proof {
        assert(base@ =~= name@.subrange(base_start as int, base_start as int));
    }
    while i < name.len()
        invariant
            base_start <= i <= name@.len(),
            base@ == name@.subrange(base_start as int, i as int),
        decreases name@.len() - i,
    {
        base.push(name[i]);
        proof {
            assert(base@ =~= name@.subrange(base_start as int, i as int + 1));
        }
        i += 1;
    }
    proof {
        if (d as int) < name@.len() {
            assert(base@ =~= name@.skip(d as int + 1));
        } else {
            assert(base@ =~= name@);
        }
    }
    match named_key_exec(&base) {
        Some(code) => Some(KeyInput { code, ctrl, alt, shift }),
        None => None,
    }
}

/// The running relation of the sequence parser: the chords read so far,
/// joined with whatever the remaining input denotes, are what the whole
/// string denotes.
pub open spec fn parse_inv(sfull: Seq<char>, pos: int, done: Seq<KeyInput>) -> bool {
    match keys_of(sfull.skip(pos)) {
        Some(r) => keys_of(sfull) == Some(done + r),
        None => keys_of(sfull) is None,
    }
}

/// One ordinary character consumed: the relation advances one position.
proof fn lemma_step_char(sfull: Seq<char>, pos: int, done: Seq<KeyInput>, k: KeyInput)
    requires
        0 <= pos < sfull.len(),
        sfull[pos] != '<',
        k == (KeyInput { code: KeyCode::Char(sfull[pos]), ctrl: false, alt: false, shift: false }),
        parse_inv(sfull, pos, done),
    ensures
        parse_inv(sfull, pos + 1, done.push(k)),
{
    let t = sfull.skip(pos);
    assert(t[0] == sfull[pos]);
    assert(t.drop_first() =~= sfull.skip(pos + 1));
    match keys_of(sfull.skip(pos + 1)) {
        Some(r) => {
            assert(keys_of(t) == Some(seq![k] + r));
            assert(done + (seq![k] + r) =~= done.push(k) + r);
        },
        None => {
            assert(keys_of(t) is None);
        },
    }
}

/// One bracketed token consumed: the scan found the closing bracket (or the
/// end), the name denotes a chord, and the relation advances past it.
proof fn lemma_step_token(sfull: Seq<char>, pos: int, e: int, done: Seq<KeyInput>, k: KeyInput)
    requires
        0 <= pos < sfull.len(),
        sfull[pos] == '<',
        pos + 1 <= e <= sfull.len(),
        forall|j: int| pos + 1 <= j < e ==> sfull[j] != '>',
        e == sfull.len() || sfull[e] == '>',
        token_key(sfull.subrange(pos + 1, e)) == Some(k),
        parse_inv(sfull, pos, done),
    ensures
        parse_inv(sfull, if e < sfull.len() { e + 1 } else { e }, done.push(k)),
{
    let t = sfull.skip(pos);
    assert(t[0] == sfull[pos]);
    assert forall|j: int| 1 <= j < e - pos implies t[j] != '>' by {
        assert(t[j] == sfull[pos + j]);
    }
    lemma_find_char(t, '>', 1, e - pos);
    assert(t.subrange(1, e - pos) =~= sfull.subrange(pos + 1, e));
    let next = if e < sfull.len() { e + 1 } else { e };
    if e < sfull.len() {
        assert(t.subrange(e - pos + 1, t.len() as int) =~= sfull.skip(next));
    } else {
        assert(sfull.skip(next) =~= Seq::<char>::empty());
        assert(t.len() == e - pos);
    }
    match keys_of(sfull.skip(next)) {
        Some(r) => {
            assert(keys_of(t) == Some(seq![k] + r));
            assert(done + (seq![k] + r) =~= done.push(k) + r);
        },
        None => {
            assert(keys_of(t) is None);
        },
    }
}

/// An unrecognized token fails the whole string.
proof fn lemma_step_token_fails(sfull: Seq<char>, pos: int, e: int, done: Seq<KeyInput>)
    requires
        0 <= pos < sfull.len(),
        sfull[pos] == '<',
        pos + 1 <= e <= sfull.len(),
        forall|j: int| pos + 1 <= j < e ==> sfull[j] != '>',
        e == sfull.len() || sfull[e] == '>',
        token_key(sfull.subrange(pos + 1, e)) is None,
        parse_inv(sfull, pos, done),
    ensures
        keys_of(sfull) is None,
{
    let t = sfull.skip(pos);
    assert(t[0] == sfull[pos]);
    assert forall|j: int| 1 <= j < e - pos implies t[j] != '>' by {
        assert(t[j] == sfull[pos + j]);
    }
    lemma_find_char(t, '>', 1, e - pos);
    assert(t.subrange(1, e - pos) =~= sfull.subrange(pos + 1, e));
    assert(keys_of(t) is None);
}

/// At the end of the input the chords read are the whole answer.
proof fn lemma_parse_done(sfull: Seq<char>, done: Seq<KeyInput>)
    requires
        parse_inv(sfull, sfull.len() as int, done),
    ensures
        keys_of(sfull) == Some(done),
{
    assert(sfull.skip(sfull.len() as int) =~= Seq::<char>::empty());
    assert(keys_of(sfull.skip(sfull.len() as int)) == Some(Seq::<KeyInput>::empty()));
    assert(done + Seq::<KeyInput>::empty() =~= done);
}

/// Parses a binding sequence string into its chords, pinned to `keys_of`:
/// `None` reports an unrecognized key name, a build-time fatal error for the
/// default set.
pub fn parse_key_sequence(s: &Vec<char>) -> (r: Option<Vec<KeyInput>>)
    ensures
        (match r {
            Some(v) => keys_of(s@) == Some(v@),
            None => keys_of(s@) is None,
        }),
{
    let mut out: Vec<KeyInput> = Vec::new();
    let mut pos: usize = 0;
    proof {
        assert(s@.skip(0) =~= s@);
        assert(out@ + keys_of(s@).unwrap() =~= keys_of(s@).unwrap());
    }
    while pos < s.len()
        invariant
            pos <= s@.len(),
            parse_inv(s@, pos as int, out@),
        decreases s@.len() - pos,
    {
        let c = s[pos];
        if c != '<' {
            let k = KeyInput { code: KeyCode::Char(c), ctrl: false, alt: false, shift: false };
            proof {
                lemma_step_char(s@, pos as int, out@, k);
            }
            out.push(k);
            pos += 1;
        } else {
            // Scan for the closing bracket; an unclosed token takes the rest.
            let mut e: usize = pos + 1;
            while e < s.len() && s[e] != '>'
                invariant
                    pos + 1 <= e <= s@.len(),
                    pos < s@.len(),
                    forall|j: int| pos + 1 <= j < e ==> s@[j] != '>',
                decreases s@.len() - e,
            {
                e += 1;
            }
            let mut name: Vec<char> = Vec::new();
            let mut i: usize = pos + 1;
            proof {
                assert(name@ =~= s@.subrange(pos as int + 1, pos as int + 1));
            }
            while i < e
                invariant
                    pos + 1 <= i <= e <= s@.len(),
                    name@ == s@.subrange(pos as int + 1, i as int),
                decreases e - i,
            {
                name.push(s[i]);
                proof {
                    assert(name@ =~= s@.subrange(pos as int + 1, i as int + 1));
                }
                i += 1;
            }
            match token_key_exec(&name) {
                Some(k) => {
                    proof {
                        lemma_step_token(s@, pos as int, e as int, out@, k);
                    }
                    out.push(k);
                    pos = if e < s.len() {
                        e + 1
                    } else {
                        e
                    };
                },
                None => {
                    proof {
                        lemma_step_token_fails(s@, pos as int, e as int, out@);
                    }
                    return None;
                },
            }
        }
    }
    proof {
        lemma_parse_done(s@, out@);
    }
    Some(out)
}

} // verus!
