//! Text serialization of the measured sequences: each sequence becomes its
//! elements in decimal, joined by single spaces, with one trailing newline.
//! The module also parses such text back and proves the round trip: a
//! rendered line, split on whitespace and parsed back to integers, yields
//! the original sequence.

use vstd::arithmetic::div_mod::lemma_fundamental_div_mod;
use vstd::prelude::*;
use vstd::string::StrSliceExecFns;
use vstd::string::StringExecFns;

verus! {

/// The ten decimal digit characters.
pub open spec fn is_digit(c: char) -> bool {
    c == '0' || c == '1' || c == '2' || c == '3' || c == '4' || c == '5' || c == '6' || c == '7'
        || c == '8' || c == '9'
}

/// Whitespace for the purpose of splitting a serialized line into tokens.
pub open spec fn is_ws(c: char) -> bool {
    c == ' ' || c == '\n' || c == '\t' || c == '\r'
}

/// The digit character for a value in `[0, 9]`.
pub open spec fn digit_char(d: int) -> char {
    if d == 0 {
        '0'
    } else if d == 1 {
        '1'
    } else if d == 2 {
        '2'
    } else if d == 3 {
        '3'
    } else if d == 4 {
        '4'
    } else if d == 5 {
        '5'
    } else if d == 6 {
        '6'
    } else if d == 7 {
        '7'
    } else if d == 8 {
        '8'
    } else {
        '9'
    }
}

/// The numeric value of a digit character (0 for anything else).
pub open spec fn digit_val(c: char) -> nat {
    if c == '0' {
        0
    } else if c == '1' {
        1
    } else if c == '2' {
        2
    } else if c == '3' {
        3
    } else if c == '4' {
        4
    } else if c == '5' {
        5
    } else if c == '6' {
        6
    } else if c == '7' {
        7
    } else if c == '8' {
        8
    } else if c == '9' {
        9
    } else {
        0
    }
}

/// Every character of `t` is a decimal digit.
pub open spec fn all_digits(t: Seq<char>) -> bool {
    forall|i: int| 0 <= i < t.len() ==> is_digit(t[i])
}

/// The value of a digit string read most-significant first.
pub open spec fn digits_value(t: Seq<char>) -> nat
    decreases t.len(),
{
    if t.len() == 0 {
        0
    } else {
        digits_value(t.drop_last()) * 10 + digit_val(t.last())
    }
}

/// The decimal rendering of a non-negative integer, without sign or leading
/// zeros (except the single digit of zero itself).
pub open spec fn dec_of(n: nat) -> Seq<char>
    decreases n,
{
    if n < 10 {
        seq![digit_char(n as int)]
    } else {
        dec_of(n / 10).push(digit_char((n % 10) as int))
    }
}

/// The decimal rendering of `n` is a non-empty digit string whose value is
/// `n` again.
proof fn lemma_dec_of(n: nat)
    ensures
        dec_of(n).len() >= 1,
        all_digits(dec_of(n)),
        digits_value(dec_of(n)) == n,
    decreases n,
{
    if n < 10 {
        let s = dec_of(n);
        assert(s.len() == 1);
        assert(s.last() == digit_char(n as int));
        assert(s.drop_last() =~= Seq::<char>::empty());
        assert(digits_value(s.drop_last()) == 0);
        assert(digits_value(s) == digit_val(digit_char(n as int)));
    } else {
        lemma_dec_of(n / 10);
        let p = dec_of(n / 10);
        let c = digit_char((n % 10) as int);
        let s = dec_of(n);
        assert(s == p.push(c));
        assert(s.drop_last() =~= p);
        assert(s.last() == c);
        assert(digits_value(s) == digits_value(p) * 10 + digit_val(c));
        assert(digit_val(c) == n % 10);
        lemma_fundamental_div_mod(n as int, 10);
        assert(forall|i: int| 0 <= i < s.len() ==> is_digit(s[i])) by {
            assert(forall|i: int| 0 <= i < p.len() ==> is_digit(#[trigger] s[i]));
            assert(is_digit(s[s.len() - 1]));
        }
    }
}

/// A digit is never whitespace.
proof fn lemma_digit_not_ws(t: Seq<char>)
    requires
        all_digits(t),
    ensures
        forall|i: int| 0 <= i < t.len() ==> !is_ws(t[i]),
{
}

/// The single-character string for a digit value.
fn digit_str(d: u128) -> (r: &'static str)
    requires
        d < 10,
    ensures
        r@ == seq![digit_char(d as int)],
{
    if d == 0 {
        proof {
            reveal_strlit("0");
            assert("0"@ =~= seq![digit_char(0)]);
        }
        "0"
    } else if d == 1 {
        proof {
            reveal_strlit("1");
            assert("1"@ =~= seq![digit_char(1)]);
        }
        "1"
    } else if d == 2 {
        proof {
            reveal_strlit("2");
            assert("2"@ =~= seq![digit_char(2)]);
        }
        "2"
    } else if d == 3 {
        proof {
            reveal_strlit("3");
            assert("3"@ =~= seq![digit_char(3)]);
        }
        "3"
    } else if d == 4 {
        proof {
            reveal_strlit("4");
            assert("4"@ =~= seq![digit_char(4)]);
        }
        "4"
    } else if d == 5 {
        proof {
            reveal_strlit("5");
            assert("5"@ =~= seq![digit_char(5)]);
        }
        "5"
    } else if d == 6 {
        proof {
            reveal_strlit("6");
            assert("6"@ =~= seq![digit_char(6)]);
        }
        "6"
    } else if d == 7 {
        proof {
            reveal_strlit("7");
            assert("7"@ =~= seq![digit_char(7)]);
        }
        "7"
    } else if d == 8 {
        proof {
            reveal_strlit("8");
            assert("8"@ =~= seq![digit_char(8)]);
        }
        "8"
    } else {
        proof {
            reveal_strlit("9");
            assert("9"@ =~= seq![digit_char(9)]);
        }
        "9"
    }
}

/// Renders `n` in decimal.
pub fn dec_string(n: u128) -> (s: String)
    ensures
        s@ == dec_of(n as nat),
    decreases n,
{
    if n < 10 {
        digit_str(n).to_owned()
    } else {
        let mut s = dec_string(n / 10);
        s.append(digit_str(n % 10));
        proof {
            assert(s@ =~= dec_of(n as nat));
        }
        s
    }
}

/// The values of a measured sequence as mathematical integers.
pub open spec fn as_nats(v: Seq<u128>) -> Seq<nat> {
    v.map_values(|x: u128| x as nat)
}

/// The values of a size sequence as mathematical integers.
pub open spec fn sizes_as_nats(v: Seq<usize>) -> Seq<nat> {
    v.map_values(|x: usize| x as nat)
}

/// The elements of `xs` in decimal, joined by single spaces.
pub open spec fn joined(xs: Seq<nat>) -> Seq<char>
    decreases xs.len(),
{
    if xs.len() == 0 {
        Seq::empty()
    } else if xs.len() == 1 {
        dec_of(xs[0])
    } else {
        joined(xs.drop_last()) + seq![' '] + dec_of(xs.last())
    }
}

/// The serialized form of a sequence: space-joined decimals and one trailing
/// newline.
pub open spec fn rendered(xs: Seq<nat>) -> Seq<char> {
    joined(xs) + seq!['\n']
}

/// Serializes `xs` as its elements in decimal, joined by single spaces, with
/// one trailing newline.
pub fn render_line(xs: &Vec<u128>) -> (s: String)
    ensures
        s@ == rendered(as_nats(xs@)),
{
    let ghost m = as_nats(xs@);
    let mut s = String::new();
    let mut i: usize = 0;
    while i < xs.len()
        invariant
            i <= xs@.len(),
            m == as_nats(xs@),
            s@ == joined(m.take(i as int)),
        decreases xs@.len() - i,
    {
        if i > 0 {
            s.append(" ");
        }
        let d = dec_string(xs[i]);
        s.append(d.as_str());
        proof {
            reveal_strlit(" ");
            let t = m.take(i + 1 as int);
            assert(t.drop_last() =~= m.take(i as int));
            assert(t.last() == m[i as int]);
            assert(m[i as int] == xs@[i as int] as nat);
            if i == 0 {
                assert(t.len() == 1);
                assert(s@ =~= joined(t));
            } else {
                assert(" "@ =~= seq![' ']);
                assert(s@ =~= joined(t.drop_last()) + seq![' '] + dec_of(t.last()));
                assert(s@ =~= joined(t));
            }
        }
        i += 1;
    }
    s.append("\n");
    proof {
        reveal_strlit("\n");
        assert("\n"@ =~= seq!['\n']);
        assert(m.take(xs@.len() as int) =~= m);
        assert(s@ =~= rendered(m));
    }
    s
}

/// Serializes a sizes sequence the same way as `render_line`.
pub fn render_sizes_line(xs: &Vec<usize>) -> (s: String)
    ensures
        s@ == rendered(sizes_as_nats(xs@)),
{
    let mut wide: Vec<u128> = Vec::new();
    let mut i: usize = 0;
    while i < xs.len()
        invariant
            i <= xs@.len(),
            wide@.len() == i,
            forall|j: int| 0 <= j < i ==> wide@[j] == xs@[j] as u128,
        decreases xs@.len() - i,
    {
        wide.push(xs[i] as u128);
        i += 1;
    }
    let s = render_line(&wide);
    proof {
        assert(as_nats(wide@) =~= sizes_as_nats(xs@));
    }
    s
}

/// One step of the whitespace split: a scanner state is the finished tokens
/// and the (possibly empty) token being read.
pub open spec fn scan_step(st: (Seq<Seq<char>>, Seq<char>), c: char) -> (Seq<Seq<char>>, Seq<char>) {
    if is_ws(c) {
        if st.1.len() == 0 {
            st
        } else {
            (st.0.push(st.1), Seq::empty())
        }
    } else {
        (st.0, st.1.push(c))
    }
}

/// Runs the scanner over `s`, left to right, from state `st`.
pub open spec fn scan_from(st: (Seq<Seq<char>>, Seq<char>), s: Seq<char>) -> (
    Seq<Seq<char>>,
    Seq<char>,
)
    decreases s.len(),
{
    if s.len() == 0 {
        st
    } else {
        scan_step(scan_from(st, s.drop_last()), s.last())
    }
}

/// The maximal runs of non-whitespace characters of `s`, in order.
pub open spec fn tokens(s: Seq<char>) -> Seq<Seq<char>> {
    let st = scan_from((Seq::empty(), Seq::empty()), s);
    if st.1.len() == 0 {
        st.0
    } else {
        st.0.push(st.1)
    }
}

/// A token that parses as a `u128`: non-empty, all digits, value in range.
pub open spec fn token_ok(t: Seq<char>) -> bool {
    t.len() > 0 && all_digits(t) && digits_value(t) <= u128::MAX
}

/// Parses a token list: the values of the tokens if every one is a
/// well-formed in-range decimal, and nothing otherwise.
pub open spec fn parse_tokens(ts: Seq<Seq<char>>) -> Option<Seq<nat>> {
    if forall|i: int| 0 <= i < ts.len() ==> token_ok(ts[i]) {
        Some(ts.map_values(|t: Seq<char>| digits_value(t)))
    } else {
        None
    }
}

/// What a serialized line means: split on whitespace, parse each token.
pub open spec fn parsed(s: Seq<char>) -> Option<Seq<nat>> {
    parse_tokens(tokens(s))
}

/// Scanning a concatenation is scanning the parts in turn.
proof fn lemma_scan_concat(st: (Seq<Seq<char>>, Seq<char>), a: Seq<char>, b: Seq<char>)
    ensures
        scan_from(st, a + b) == scan_from(scan_from(st, a), b),
    decreases b.len(),
{
    if b.len() == 0 {
        assert(a + b =~= a);
    } else {
        lemma_scan_concat(st, a, b.drop_last());
        assert((a + b).drop_last() =~= a + b.drop_last());
        assert((a + b).last() == b.last());
    }
}

/// Scanning text without whitespace only extends the current token.
proof fn lemma_scan_non_ws(st: (Seq<Seq<char>>, Seq<char>), t: Seq<char>)
    requires
        forall|i: int| 0 <= i < t.len() ==> !is_ws(t[i]),
    ensures
        scan_from(st, t) == (st.0, st.1 + t),
    decreases t.len(),
{
    if t.len() == 0 {
        assert(st.1 + t =~= st.1);
    } else {
        lemma_scan_non_ws(st, t.drop_last());
        assert(!is_ws(t.last()));
        assert((st.1 + t.drop_last()).push(t.last()) =~= st.1 + t);
    }
}

/// Finished tokens are never discarded: scanning extends the token list.
proof fn lemma_scan_extends(st: (Seq<Seq<char>>, Seq<char>), s: Seq<char>)
    ensures
        st.0.is_prefix_of(scan_from(st, s).0),
    decreases s.len(),
{
    if s.len() == 0 {
    } else {
        lemma_scan_extends(st, s.drop_last());
        let mid = scan_from(st, s.drop_last());
        let end = scan_step(mid, s.last());
        assert(mid.0.is_prefix_of(end.0));
        assert(st.0.is_prefix_of(end.0));
    }
}

/// The tokens finished after scanning a prefix stand, in place, among the
/// tokens of the whole text.
proof fn lemma_scan_prefix_tokens(s: Seq<char>, i: int)
    requires
        0 <= i <= s.len(),
    ensures
        scan_from((Seq::empty(), Seq::empty()), s.take(i)).0.is_prefix_of(tokens(s)),
{
    let st0 = (Seq::<Seq<char>>::empty(), Seq::<char>::empty());
    let sti = scan_from(st0, s.take(i));
    assert(s.take(i) + s.skip(i) =~= s);
    lemma_scan_concat(st0, s.take(i), s.skip(i));
    lemma_scan_extends(sti, s.skip(i));
    let stn = scan_from(st0, s);
    assert(sti.0.is_prefix_of(stn.0));
    assert(stn.0.is_prefix_of(tokens(s)));
    assert(sti.0.is_prefix_of(tokens(s)));
}

/// Scanning the space-joined rendering from a clean current token leaves all
/// but the last element finished and the last one in progress.
proof fn lemma_scan_joined(ts: Seq<Seq<char>>, xs: Seq<nat>)
    ensures
        scan_from((ts, Seq::empty()), joined(xs)) == if xs.len() == 0 {
            (ts, Seq::<char>::empty())
        } else {
            (
                ts + xs.drop_last().map_values(|n: nat| dec_of(n)),
                dec_of(xs.last()),
            )
        },
    decreases xs.len(),
{
    let st0 = (ts, Seq::<char>::empty());
    if xs.len() == 0 {
    } else if xs.len() == 1 {
        lemma_dec_of(xs[0]);
        lemma_digit_not_ws(dec_of(xs[0]));
        lemma_scan_non_ws(st0, dec_of(xs[0]));
        assert(Seq::<char>::empty() + dec_of(xs[0]) =~= dec_of(xs[0]));
        assert(ts + xs.drop_last().map_values(|n: nat| dec_of(n)) =~= ts);
    } else {
        let dl = xs.drop_last();
        lemma_scan_joined(ts, dl);
        let j = joined(dl);
        let last = dec_of(xs.last());
        assert(joined(xs) == j + seq![' '] + last);
        lemma_scan_concat(st0, j + seq![' '], last);
        lemma_scan_concat(st0, j, seq![' ']);
        let st1 = scan_from(st0, j);
        assert(st1 == (ts + dl.drop_last().map_values(|n: nat| dec_of(n)), dec_of(dl.last())));
        lemma_dec_of(dl.last());
        assert(is_ws(' '));
        assert(seq![' '].drop_last() =~= Seq::<char>::empty());
        assert(seq![' '].len() == 1);
        assert(seq![' '].last() == ' ');
        let st2 = scan_from(st1, seq![' ']);
        assert(st2 == scan_step(scan_from(st1, seq![' '].drop_last()), ' '));
        assert(scan_from(st1, seq![' '].drop_last()) == st1);
        assert(st2 == scan_step(st1, ' '));
        assert(st2.0 == st1.0.push(st1.1));
        assert(st2.1.len() == 0);
        assert(st2.0 =~= ts + dl.map_values(|n: nat| dec_of(n))) by {
            assert(dl.drop_last().map_values(|n: nat| dec_of(n)).push(dec_of(dl.last())) =~= dl.map_values(
                |n: nat| dec_of(n),
            ));
        }
        lemma_dec_of(xs.last());
        lemma_digit_not_ws(last);
        lemma_scan_non_ws((st2.0, st2.1), last);
        assert(st2.1 + last =~= last);
        assert(scan_from(st0, joined(xs)) == scan_from(st2, last));
        assert(scan_from(st2, last) == (st2.0, last));
    }
}

/// Round trip: a rendered line, split on whitespace and parsed back to
/// integers, reproduces the in-memory sequence exactly.
pub proof fn lemma_rendered_parses_back(xs: Seq<nat>)
    requires
        forall|i: int| 0 <= i < xs.len() ==> xs[i] <= u128::MAX,
    ensures
        parsed(rendered(xs)) == Some(xs),
{
    let st0 = (Seq::<Seq<char>>::empty(), Seq::<char>::empty());
    lemma_scan_joined(Seq::empty(), xs);
    lemma_scan_concat(st0, joined(xs), seq!['\n']);
    assert(seq!['\n'].drop_last() =~= Seq::<char>::empty());
    assert(seq!['\n'].len() == 1);
    assert(seq!['\n'].last() == '\n');
    let stj = scan_from(st0, joined(xs));
    let stn = scan_from(st0, rendered(xs));
    assert(stn == scan_from(stj, seq!['\n']));
    assert(scan_from(stj, seq!['\n']) == scan_step(scan_from(stj, seq!['\n'].drop_last()), '\n'));
    assert(scan_from(stj, seq!['\n'].drop_last()) == stj);
    assert(stn == scan_step(stj, '\n'));
    assert(is_ws('\n'));
    if xs.len() == 0 {
        assert(stn.1.len() == 0);
        assert(tokens(rendered(xs)) =~= Seq::<Seq<char>>::empty());
        assert(parse_tokens(tokens(rendered(xs))) == Some(
            Seq::<Seq<char>>::empty().map_values(|t: Seq<char>| digits_value(t)),
        ));
        assert(Seq::<Seq<char>>::empty().map_values(|t: Seq<char>| digits_value(t)) =~= xs);
    } else {
        lemma_dec_of(xs.last());
        assert(stj.1.len() >= 1);
        assert(stn.0 == stj.0.push(stj.1));
        assert(stn.1.len() == 0);
        let ts = tokens(rendered(xs));
        assert(ts == stn.0);
        let f = |n: nat| dec_of(n);
        assert(ts =~= xs.map_values(f)) by {
            assert(Seq::<Seq<char>>::empty() + xs.drop_last().map_values(f) =~= xs.drop_last().map_values(
                f,
            ));
            assert(xs.drop_last().map_values(f).push(dec_of(xs.last())) =~= xs.map_values(f));
        }
        assert forall|i: int| 0 <= i < ts.len() implies token_ok(ts[i]) by {
            assert(ts[i] == dec_of(xs[i]));
            lemma_dec_of(xs[i]);
        }
        let vs = ts.map_values(|t: Seq<char>| digits_value(t));
        assert(vs =~= xs) by {
            assert forall|i: int| 0 <= i < xs.len() implies vs[i] == xs[i] by {
                assert(ts[i] == dec_of(xs[i]));
                lemma_dec_of(xs[i]);
            }
        }
        assert(parsed(rendered(xs)) == Some(vs));
    }
}

/// Appending a character to a digit string multiplies its value by ten and
/// adds the digit.
proof fn lemma_digits_value_push(t: Seq<char>, c: char)
    ensures
        digits_value(t.push(c)) == digits_value(t) * 10 + digit_val(c),
{
    let p = t.push(c);
    assert(p.drop_last() =~= t);
    assert(p.last() == c);
}

/// A token that already fails to parse still fails after more characters.
proof fn lemma_bad_token_stays(t: Seq<char>, c: char)
    requires
        t.len() > 0,
        !token_ok(t),
    ensures
        !token_ok(t.push(c)),
{
    let p = t.push(c);
    lemma_digits_value_push(t, c);
    if !all_digits(t) {
        let i = choose|i: int| 0 <= i < t.len() && !is_digit(t[i]);
        assert(p[i] == t[i]);
        assert(!is_digit(p[i]));
    } else {
        assert(digits_value(t) > u128::MAX);
        assert(digits_value(t) * 10 >= digits_value(t)) by (nonlinear_arith);
    }
}

/// Whether `c` splits tokens.
fn ws_char(c: char) -> (r: bool)
    ensures
        r == is_ws(c),
{
    c == ' ' || c == '\n' || c == '\t' || c == '\r'
}

/// The numeric value of a digit character, or nothing for a non-digit.
fn digit_of(c: char) -> (r: Option<u128>)
    ensures
        match r {
            Some(v) => is_digit(c) && v == digit_val(c),
            None => !is_digit(c),
        },
{
    if c == '0' {
        Some(0)
    } else if c == '1' {
        Some(1)
    } else if c == '2' {
        Some(2)
    } else if c == '3' {
        Some(3)
    } else if c == '4' {
        Some(4)
    } else if c == '5' {
        Some(5)
    } else if c == '6' {
        Some(6)
    } else if c == '7' {
        Some(7)
    } else if c == '8' {
        Some(8)
    } else if c == '9' {
        Some(9)
    } else {
        None
    }
}

/// Splits `s` on whitespace and parses every token as a decimal `u128`.
/// Returns the values exactly when every token is a well-formed in-range
/// decimal (an empty or all-whitespace line gives the empty sequence), and
/// nothing otherwise.
pub fn parse_line(s: &str) -> (r: Option<Vec<u128>>)
    ensures
        match r {
            Some(v) => parsed(s@) == Some(as_nats(v@)),
            None => parsed(s@) is None,
        },
{
    let ghost st0 = (Seq::<Seq<char>>::empty(), Seq::<char>::empty());
    let n = s.unicode_len();
    let mut vals: Vec<u128> = Vec::new();
    let mut cur_val: u128 = 0;
    let mut cur_len: usize = 0;
    let mut bad = false;
    let mut i: usize = 0;
    while i < n
        invariant
            st0 == (Seq::<Seq<char>>::empty(), Seq::<char>::empty()),
            n == s@.len(),
            i <= n,
            cur_len <= i,
            scan_from(st0, s@.take(i as int)).1.len() == cur_len,
            forall|k: int|
                0 <= k < scan_from(st0, s@.take(i as int)).0.len() ==> token_ok(
                    #[trigger] scan_from(st0, s@.take(i as int)).0[k],
                ),
            vals@.len() == scan_from(st0, s@.take(i as int)).0.len(),
            forall|k: int|
                0 <= k < vals@.len() ==> vals@[k] as nat == digits_value(
                    #[trigger] scan_from(st0, s@.take(i as int)).0[k],
                ),
            !bad ==> all_digits(scan_from(st0, s@.take(i as int)).1) && digits_value(
                scan_from(st0, s@.take(i as int)).1,
            ) == cur_val as nat,
            bad ==> cur_len > 0 && !token_ok(scan_from(st0, s@.take(i as int)).1),
        decreases n - i,
    {
        let c = s.get_char(i);
        let ghost st = scan_from(st0, s@.take(i as int));
        let ghost stn = scan_from(st0, s@.take(i + 1 as int));
        proof {
            assert(s@.take(i + 1 as int).drop_last() =~= s@.take(i as int));
            assert(s@.take(i + 1 as int).last() == c);
            assert(s@.take(i + 1 as int).len() == i + 1);
            assert(stn == scan_step(st, c));
        }
        if ws_char(c) {
            if cur_len > 0 {
                proof {
                    assert(stn.0 == st.0.push(st.1));
                    assert(stn.1.len() == 0);
                }
                if bad {
                    proof {
                        lemma_scan_prefix_tokens(s@, i + 1 as int);
                        assert(scan_from(
                            (Seq::<Seq<char>>::empty(), Seq::<char>::empty()),
                            s@.take(i + 1 as int),
                        ) == stn);
                        let ts = tokens(s@);
                        let idx = st.0.len() as int;
                        assert(stn.0[idx] == st.1);
                        assert(stn.0.is_prefix_of(ts));
                        assert(ts[idx] == st.1);
                        assert(!token_ok(ts[idx]));
                        assert(parse_tokens(ts) is None);
                    }
                    return None;
                }
                vals.push(cur_val);
                proof {
                    assert(token_ok(st.1));
                    assert(stn.0[st.0.len() as int] == st.1);
                    assert(forall|k: int| 0 <= k < st.0.len() ==> stn.0[k] == #[trigger] st.0[k]);
                }
                cur_val = 0;
                cur_len = 0;
            } else {
                proof {
                    assert(stn == st);
                }
            }
        } else {
            proof {
                assert(stn.0 == st.0);
                assert(stn.1 == st.1.push(c));
                lemma_digits_value_push(st.1, c);
            }
            cur_len += 1;
            match digit_of(c) {
                Some(d) => {
                    if bad {
                        proof {
                            lemma_bad_token_stays(st.1, c);
                        }
                    } else if cur_val <= (u128::MAX - d) / 10 {
                        proof {
                            assert(cur_val * 10 + d <= u128::MAX) by (nonlinear_arith)
                                requires
                                    cur_val <= (u128::MAX - d) / 10,
                                    d <= 9,
                            {
                                lemma_fundamental_div_mod((u128::MAX - d) as int, 10);
                            }
                            assert(forall|j: int|
                                0 <= j < st.1.len() ==> is_digit(#[trigger] stn.1[j]));
                            assert(stn.1[st.1.len() as int] == c);
                        }
                        cur_val = cur_val * 10 + d;
                    } else {
                        proof {
                            assert(cur_val * 10 + d > u128::MAX) by (nonlinear_arith)
                                requires
                                    cur_val > (u128::MAX - d) / 10,
                                    d <= 9,
                            {
                                lemma_fundamental_div_mod((u128::MAX - d) as int, 10);
                            }
                            assert(digits_value(stn.1) > u128::MAX);
                        }
                        bad = true;
                    }
                },
                None => {
                    proof {
                        if bad {
                            lemma_bad_token_stays(st.1, c);
                        } else {
                            assert(stn.1.last() == c);
                            assert(!all_digits(stn.1));
                        }
                    }
                    bad = true;
                },
            }
        }
        i += 1;
    }
    let ghost st = scan_from(st0, s@.take(n as int));
    proof {
        assert(s@.take(n as int) =~= s@);
    }
    if cur_len > 0 {
        if bad {
            proof {
                let ts = tokens(s@);
                let idx = st.0.len() as int;
                assert(ts == st.0.push(st.1));
                assert(ts[idx] == st.1);
                assert(!token_ok(ts[idx]));
                assert(parse_tokens(ts) is None);
            }
            return None;
        }
        vals.push(cur_val);
        proof {
            let ts = tokens(s@);
            assert(ts == st.0.push(st.1));
            assert(token_ok(st.1));
            assert(ts[st.0.len() as int] == st.1);
            assert(forall|k: int| 0 <= k < st.0.len() ==> ts[k] == #[trigger] st.0[k]);
            assert(forall|k: int| 0 <= k < ts.len() ==> token_ok(#[trigger] ts[k]));
            assert(ts.map_values(|t: Seq<char>| digits_value(t)) =~= as_nats(vals@));
            assert(parsed(s@) == Some(as_nats(vals@)));
        }
        Some(vals)
    } else {
        proof {
            let ts = tokens(s@);
            assert(ts == st.0);
            assert(forall|k: int| 0 <= k < ts.len() ==> token_ok(#[trigger] ts[k]));
            assert(ts.map_values(|t: Seq<char>| digits_value(t)) =~= as_nats(vals@));
            assert(parsed(s@) == Some(as_nats(vals@)));
        }
        Some(vals)
    }
}

} // verus!
