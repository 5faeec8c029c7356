//! The store encoding of a shortlink record.
//!
//! Records travel to and from the remote store as text: a JSON-shaped
//! object with the fields in a fixed order, text fields escaped, the hit
//! counter as a minimal decimal numeral. [`encoded`] is the encoding as a
//! mathematical function; [`encode_shortlink`] produces exactly it, and
//! [`decode_shortlink`] accepts exactly its image, so decoding inverts
//! encoding and anything else is a [`DatabaseError::DecodeFailure`].

use vstd::prelude::*;

use crate::errors::DatabaseError;
use crate::models::{Shortlink, ShortlinkV};

verus! {

// ---------------------------------------------------------------------
// The encoding, as a mathematical function.
// ---------------------------------------------------------------------

/// How one character of a text field appears in the encoding: the double
/// quote and the backslash are escaped with a backslash, every other
/// character stands for itself.
pub open spec fn escape_char(c: char) -> Seq<char> {
    if c == '"' || c == '\\' {
        seq!['\\', c]
    } else {
        seq![c]
    }
}

/// A text field, escaped character by character.
pub open spec fn escape(s: Seq<char>) -> Seq<char>
    decreases s.len(),
{
    if s.len() == 0 {
        Seq::empty()
    } else {
        escape_char(s[0]) + escape(s.skip(1))
    }
}

/// The decimal digit `d` as a character.
pub open spec fn digit_char(d: int) -> char {
    if d == 0 {
        '0'
    } else if d == 1 {
        '1'
    } else if d == 2 {
        '2'
    } else if d == 3 {
        '3'
    } else if d == 4 {
        '4'
    } else if d == 5 {
        '5'
    } else if d == 6 {
        '6'
    } else if d == 7 {
        '7'
    } else if d == 8 {
        '8'
    } else {
        '9'
    }
}

/// The value of `c` as a decimal digit; 10 if it is not one.
pub open spec fn digit_val(c: char) -> int {
    if c == '0' {
        0
    } else if c == '1' {
        1
    } else if c == '2' {
        2
    } else if c == '3' {
        3
    } else if c == '4' {
        4
    } else if c == '5' {
        5
    } else if c == '6' {
        6
    } else if c == '7' {
        7
    } else if c == '8' {
        8
    } else if c == '9' {
        9
    } else {
        10
    }
}

/// Whether `c` is a decimal digit.
pub open spec fn is_digit(c: char) -> bool {
    digit_val(c) < 10
}

/// The minimal decimal numeral of `n`.
pub open spec fn dec_rep(n: nat) -> Seq<char>
    decreases n,
{
    if n < 10 {
        seq![digit_char(n as int)]
    } else {
        dec_rep(n / 10) + seq![digit_char((n % 10) as int)]
    }
}

/// The encoding of a boolean field.
pub open spec fn bool_rep(b: bool) -> Seq<char> {
    if b {
        "true"@
    } else {
        "false"@
    }
}

/// A single double-quote character, closing a text field.
pub open spec fn quote() -> Seq<char> {
    seq!['"']
}

/// The fixed pieces of the encoding, in the order they appear.
pub open spec fn lit_kw() -> Seq<char> {
    "{\"keyword\":\""@
}

pub open spec fn lit_url() -> Seq<char> {
    ",\"url\":\""@
}

pub open spec fn lit_owner() -> Seq<char> {
    ",\"owner\":\""@
}

pub open spec fn lit_hits() -> Seq<char> {
    ",\"hits\":"@
}

pub open spec fn lit_private() -> Seq<char> {
    ",\"private\":"@
}

pub open spec fn lit_desc() -> Seq<char> {
    ",\"description\":\""@
}

/// The store encoding of a record.
pub open spec fn encoded(v: ShortlinkV) -> Seq<char> {
    lit_kw() + escape(v.keyword) + quote() + lit_url() + escape(v.url) + quote() + lit_owner()
        + escape(v.owner) + quote() + lit_hits() + dec_rep(v.hits as nat) + lit_private()
        + bool_rep(v.private) + lit_desc() + escape(v.description) + quote() + "}"@
}

// ---------------------------------------------------------------------
// The encoder.
// ---------------------------------------------------------------------

/// Relies on String::push: appends the given character to the end of the
/// string.
pub assume_specification[ String::push ](s: &mut String, c: char)
    ensures
        final(s)@ == old(s)@.push(c),
;

/// Escaping distributes over appending one character.
proof fn lemma_escape_push(s: Seq<char>, c: char)
    ensures
        escape(s.push(c)) == escape(s) + escape_char(c),
    decreases s.len(),
{
    if s.len() == 0 {
        assert(s.push(c)[0] == c);
        assert(s.push(c).skip(1) =~= Seq::<char>::empty());
        assert(escape(s.push(c).skip(1)) =~= Seq::<char>::empty());
        assert(escape(s.push(c)) =~= escape_char(c) + escape(s.push(c).skip(1)));
        assert(escape(s.push(c)) =~= escape(s) + escape_char(c));
    } else {
        assert(s.push(c).skip(1) =~= s.skip(1).push(c));
        lemma_escape_push(s.skip(1), c);
        assert(escape(s.push(c)) =~= escape(s) + escape_char(c));
    }
}

/// Appends `escape(s@)` to `out`.
fn append_escaped(out: &mut String, s: &str)
    ensures
        final(out)@ == old(out)@ + escape(s@),
{
    let n = s.unicode_len();
    let mut i: usize = 0;
    proof {
        assert(s@.take(0) =~= Seq::<char>::empty());
        assert(out@ =~= old(out)@ + escape(s@.take(0)));
    }
    while i < n
        invariant
            i <= n,
            n == s@.len(),
            out@ == old(out)@ + escape(s@.take(i as int)),
        decreases n - i,
    {
        let c = s.get_char(i);
        if c == '"' || c == '\\' {
            out.push('\\');
            out.push(c);
        } else {
            out.push(c);
        }
        proof {
            lemma_escape_push(s@.take(i as int), c);
            assert(s@.take(i + 1) =~= s@.take(i as int).push(c));
            assert(out@ =~= old(out)@ + escape(s@.take(i + 1)));
        }
        i = i + 1;
    }
    proof {
        assert(s@.take(n as int) =~= s@);
    }
}

/// The character of one decimal digit.
fn digit_of(d: usize) -> (c: char)
    requires
        d < 10,
    ensures
        c == digit_char(d as int),
{
    if d == 0 {
        '0'
    } else if d == 1 {
        '1'
    } else if d == 2 {
        '2'
    } else if d == 3 {
        '3'
    } else if d == 4 {
        '4'
    } else if d == 5 {
        '5'
    } else if d == 6 {
        '6'
    } else if d == 7 {
        '7'
    } else if d == 8 {
        '8'
    } else {
        '9'
    }
}

/// Appends the minimal decimal numeral of `n` to `out`.
fn append_dec(out: &mut String, n: usize)
    ensures
        final(out)@ == old(out)@ + dec_rep(n as nat),
    decreases n,
{
    if n < 10 {
        let c = digit_of(n);
        out.push(c);
        proof {
            assert(out@ =~= old(out)@ + dec_rep(n as nat));
        }
    } else {
        append_dec(out, n / 10);
        let c = digit_of(n % 10);
        out.push(c);
        proof {
            assert((n / 10) as nat == (n as nat) / 10);
            assert((n % 10) as nat == (n as nat) % 10);
            assert(out@ =~= old(out)@ + dec_rep(n as nat));
        }
    }
}

/// Produces the store encoding of a record: exactly [`encoded`] of its
/// value.
pub fn encode_shortlink(s: &Shortlink) -> (r: String)
    ensures
        r@ == encoded(s@),
{
    let mut out = String::new();
    out.append("{\"keyword\":\"");
    append_escaped(&mut out, s.keyword.as_str());
    out.push('"');
    out.append(",\"url\":\"");
    append_escaped(&mut out, s.url.as_str());
    out.push('"');
    out.append(",\"owner\":\"");
    append_escaped(&mut out, s.owner.as_str());
    out.push('"');
    out.append(",\"hits\":");
    append_dec(&mut out, s.hits);
    out.append(",\"private\":");
    if s.private {
        out.append("true");
    } else {
        out.append("false");
    }
    out.append(",\"description\":\"");
    append_escaped(&mut out, s.description.as_str());
    out.push('"');
    out.append("}");
    proof {
        assert(out@ =~= encoded(s@));
    }
    out
}

// ---------------------------------------------------------------------
// The decoder: text fields.
// ---------------------------------------------------------------------

/// Parses an escaped text field starting at `i`, up to and including its
/// closing quote: the unescaped content and the index just past the quote.
pub open spec fn parse_str_body(s: Seq<char>, i: int) -> Option<(Seq<char>, int)>
    recommends
        0 <= i <= s.len(),
    decreases s.len() - i,
        when 0 <= i <= s.len()
{
    if i == s.len() {
        None
    } else if s[i] == '"' {
        Some((Seq::empty(), i + 1))
    } else if s[i] == '\\' {
        if i + 2 <= s.len() && (s[i + 1] == '"' || s[i + 1] == '\\') {
            match parse_str_body(s, i + 2) {
                Some(p) => Some((seq![s[i + 1]] + p.0, p.1)),
                None => None,
            }
        } else {
            None
        }
    } else {
        match parse_str_body(s, i + 1) {
            Some(p) => Some((seq![s[i]] + p.0, p.1)),
            None => None,
        }
    }
}

/// What a successful text-field parse yields: the consumed region is the
/// escape of the content, followed by the closing quote.
pub proof fn lemma_parse_str_sound(s: Seq<char>, i: int)
    requires
        0 <= i <= s.len(),
        parse_str_body(s, i) is Some,
    ensures
        ({
            let (t, j) = parse_str_body(s, i).unwrap();
            &&& i < j <= s.len()
            &&& j == i + escape(t).len() + 1
            &&& s.subrange(i, j - 1) == escape(t)
            &&& s[j - 1] == '"'
        }),
    decreases s.len() - i,
{
    let (t, j) = parse_str_body(s, i).unwrap();
    if s[i] == '"' {
        assert(escape(t) =~= Seq::<char>::empty());
        assert(s.subrange(i, j - 1) =~= escape(t));
    } else if s[i] == '\\' {
        let p = parse_str_body(s, i + 2).unwrap();
        lemma_parse_str_sound(s, i + 2);
        assert(t[0] == s[i + 1]);
        assert(t.skip(1) =~= p.0);
        assert(escape(t) =~= escape_char(t[0]) + escape(t.skip(1)));
        assert(s.subrange(i, j - 1) =~= escape(t));
    } else {
        let p = parse_str_body(s, i + 1).unwrap();
        lemma_parse_str_sound(s, i + 1);
        assert(t[0] == s[i]);
        assert(t.skip(1) =~= p.0);
        assert(escape(t) =~= escape_char(t[0]) + escape(t.skip(1)));
        assert(s.subrange(i, j - 1) =~= escape(t));
    }
}

/// Wherever the escape of some content sits, followed by a closing quote,
/// the text-field parse succeeds and yields exactly that content.
pub proof fn lemma_parse_str_complete(s: Seq<char>, i: int, t: Seq<char>)
    requires
        0 <= i,
        i + escape(t).len() + 1 <= s.len(),
        s.subrange(i, i + escape(t).len()) == escape(t),
        s[i + escape(t).len()] == '"',
    ensures
        parse_str_body(s, i) == Some((t, i + escape(t).len() + 1)),
    decreases t.len(),
{
    if t.len() == 0 {
        assert(escape(t) =~= Seq::<char>::empty());
        assert(s[i] == '"');
    } else {
        let c = t[0];
        let e = escape_char(c);
        let rest = escape(t.skip(1));
        assert(escape(t) == e + rest);
        assert(escape(t)[0] == e[0]);
        assert(s[i] == escape(t)[0]);
        if c == '"' || c == '\\' {
            assert(s[i] == '\\');
            assert(escape(t)[1] == c);
            assert(s[i + 1] == c);
            assert forall|q: int| 0 <= q < rest.len() implies s[i + 2 + q] == rest[q] by {
                assert(escape(t)[2 + q] == rest[q]);
                assert(s.subrange(i, i + escape(t).len())[2 + q] == s[i + 2 + q]);
            }
            assert(s.subrange(i + 2, i + 2 + rest.len()) =~= rest);
            assert(s[i + 2 + rest.len()] == '"');
            lemma_parse_str_complete(s, i + 2, t.skip(1));
            assert(seq![s[i + 1]] + t.skip(1) =~= t);
        } else {
            assert(s[i] == c);
            assert forall|q: int| 0 <= q < rest.len() implies s[i + 1 + q] == rest[q] by {
                assert(escape(t)[1 + q] == rest[q]);
                assert(s.subrange(i, i + escape(t).len())[1 + q] == s[i + 1 + q]);
            }
            assert(s.subrange(i + 1, i + 1 + rest.len()) =~= rest);
            assert(s[i + 1 + rest.len()] == '"');
            lemma_parse_str_complete(s, i + 1, t.skip(1));
            assert(seq![s[i]] + t.skip(1) =~= t);
        }
    }
}

/// Prefixes already-consumed content onto the rest of a text-field parse.
pub open spec fn prepend_parsed(a: Seq<char>, r: Option<(Seq<char>, int)>) -> Option<
    (Seq<char>, int),
> {
    match r {
        Some(p) => Some((a + p.0, p.1)),
        None => None,
    }
}

/// Runs the text-field parse of [`parse_str_body`], building the content.
fn parse_string(v: &Vec<char>, start: usize) -> (r: Option<(String, usize)>)
    requires
        start <= v@.len(),
    ensures
        match r {
            Some(p) => parse_str_body(v@, start as int) == Some((p.0@, p.1 as int)) && start
                < p.1 <= v@.len(),
            None => parse_str_body(v@, start as int) is None,
        },
{
    let n = v.len();
    let mut acc = String::new();
    let mut cur = start;
    proof {
        assert(parse_str_body(v@, start as int) == prepend_parsed(
            acc@,
            parse_str_body(v@, cur as int),
        )) by {
            match parse_str_body(v@, cur as int) {
                Some(p) => {
                    assert(acc@ + p.0 =~= p.0);
                },
                None => {},
            }
        }
    }
    loop
        invariant
            start <= cur <= n,
            n == v@.len(),
            parse_str_body(v@, start as int) == prepend_parsed(
                acc@,
                parse_str_body(v@, cur as int),
            ),
        decreases n - cur,
    {
        if cur == n {
            return None;
        }
        let c = v[cur];
        if c == '"' {
            proof {
                assert(acc@ + Seq::<char>::empty() =~= acc@);
            }
            return Some((acc, cur + 1));
        } else if c == '\\' {
            if cur + 1 < n {
                let d = v[cur + 1];
                if d == '"' || d == '\\' {
                    let ghost acc0 = acc@;
                    acc.push(d);
                    proof {
                        match parse_str_body(v@, cur + 2) {
                            Some(p) => {
                                assert(acc0 + (seq![d] + p.0) =~= acc@ + p.0);
                            },
                            None => {},
                        }
                    }
                    cur = cur + 2;
                } else {
                    return None;
                }
            } else {
                return None;
            }
        } else {
            let ghost acc0 = acc@;
            acc.push(c);
            proof {
                match parse_str_body(v@, cur + 1) {
                    Some(p) => {
                        assert(acc0 + (seq![c] + p.0) =~= acc@ + p.0);
                    },
                    None => {},
                }
            }
            cur = cur + 1;
        }
    }
}

// ---------------------------------------------------------------------
// The decoder: the hit counter.
// ---------------------------------------------------------------------

/// The index of the first non-digit character at or after `i`.
pub open spec fn digits_end(s: Seq<char>, i: int) -> int
    recommends
        0 <= i <= s.len(),
    decreases s.len() - i,
        when 0 <= i <= s.len()
{
    if i == s.len() {
        i
    } else if is_digit(s[i]) {
        digits_end(s, i + 1)
    } else {
        i
    }
}

/// The value of the digit run `s[i..j]`, read left to right.
pub open spec fn digits_val(s: Seq<char>, i: int, j: int) -> nat
    decreases j - i,
{
    if j <= i {
        0
    } else {
        digits_val(s, i, j - 1) * 10 + (if is_digit(s[j - 1]) {
            digit_val(s[j - 1]) as nat
        } else {
            0
        })
    }
}

/// Where the digit run beginning at `i` ends, and what lies inside it.
pub proof fn lemma_digits_end_props(s: Seq<char>, i: int)
    requires
        0 <= i <= s.len(),
    ensures
        i <= digits_end(s, i) <= s.len(),
        forall|q: int| i <= q < digits_end(s, i) ==> is_digit(s[q]),
        digits_end(s, i) < s.len() ==> !is_digit(s[digits_end(s, i)]),
    decreases s.len() - i,
{
    if i < s.len() && is_digit(s[i]) {
        lemma_digits_end_props(s, i + 1);
    }
}

/// Walking over digits does not move where the digit run ends.
pub proof fn lemma_digits_end_advance(s: Seq<char>, i: int, k: int)
    requires
        0 <= i <= k <= s.len(),
        forall|q: int| i <= q < k ==> is_digit(s[q]),
    ensures
        digits_end(s, i) == digits_end(s, k),
    decreases k - i,
{
    if i < k {
        lemma_digits_end_advance(s, i + 1, k);
    }
}

/// A digit run's value only grows as the run extends.
pub proof fn lemma_digits_val_mono(s: Seq<char>, i: int, a: int, b: int)
    requires
        i <= a <= b,
    ensures
        digits_val(s, i, b) >= digits_val(s, i, a),
    decreases b - a,
{
    if a < b {
        lemma_digits_val_mono(s, i, a, b - 1);
    }
}

/// The shape of a minimal decimal numeral: at least one character, all of
/// them digits, and no leading zero unless the value is zero itself.
pub proof fn lemma_dec_rep_props(n: nat)
    ensures
        dec_rep(n).len() >= 1,
        forall|q: int| 0 <= q < dec_rep(n).len() ==> is_digit(#[trigger] dec_rep(n)[q]),
        n >= 1 ==> dec_rep(n)[0] != '0',
        n == 0 ==> dec_rep(n) == seq!['0'],
    decreases n,
{
    if n >= 10 {
        lemma_dec_rep_props(n / 10);
        assert forall|q: int| 0 <= q < dec_rep(n).len() implies is_digit(
            #[trigger] dec_rep(n)[q],
        ) by {
            if q < dec_rep(n / 10).len() {
                assert(dec_rep(n)[q] == dec_rep(n / 10)[q]);
            } else {
                assert(dec_rep(n)[q] == digit_char((n % 10) as int));
            }
        }
        assert(dec_rep(n)[0] == dec_rep(n / 10)[0]);
    }
}

/// Reading a minimal decimal numeral back gives its value.
pub proof fn lemma_dec_rep_val(s: Seq<char>, i: int, n: nat)
    requires
        0 <= i,
        i + dec_rep(n).len() <= s.len(),
        s.subrange(i, i + dec_rep(n).len()) == dec_rep(n),
    ensures
        digits_val(s, i, i + dec_rep(n).len()) == n,
    decreases n,
{
    lemma_dec_rep_props(n);
    if n < 10 {
        assert(s[i] == dec_rep(n)[0]);
        assert(digits_val(s, i, i) == 0);
        assert(digits_val(s, i, i + 1) == digit_val(digit_char(n as int)));
    } else {
        let a = dec_rep(n / 10);
        let l = dec_rep(n).len();
        assert forall|q: int| 0 <= q < a.len() implies s[i + q] == a[q] by {
            assert(dec_rep(n)[q] == a[q]);
            assert(s.subrange(i, i + l)[q] == s[i + q]);
        }
        assert(s.subrange(i, i + a.len()) =~= a);
        lemma_dec_rep_val(s, i, n / 10);
        assert(s[i + l - 1] == dec_rep(n)[l - 1]);
        assert(s[i + l - 1] == digit_char((n % 10) as int));
        assert(digits_val(s, i, i + l) == digits_val(s, i, i + l - 1) * 10 + digit_val(
            digit_char((n % 10) as int),
        ));
    }
}

/// A nonempty digit run with a nonzero value has positive value if its
/// first digit is not zero.
proof fn lemma_digits_val_pos(s: Seq<char>, i: int, j: int)
    requires
        i < j,
        is_digit(s[i]),
        s[i] != '0',
    ensures
        digits_val(s, i, j) >= 1,
    decreases j - i,
{
    if j == i + 1 {
        assert(digit_val(s[i]) >= 1);
    } else {
        lemma_digits_val_pos(s, i, j - 1);
    }
}

/// A digit run with no leading zero is the minimal decimal numeral of its
/// own value.
pub proof fn lemma_digits_canonical(s: Seq<char>, i: int, j: int)
    requires
        0 <= i < j <= s.len(),
        forall|q: int| i <= q < j ==> is_digit(s[q]),
        j - i == 1 || s[i] != '0',
    ensures
        s.subrange(i, j) == dec_rep(digits_val(s, i, j)),
    decreases j - i,
{
    let n = digits_val(s, i, j);
    if j == i + 1 {
        assert(digits_val(s, i, i) == 0);
        assert(n == digit_val(s[i]));
        assert(digit_char(digit_val(s[i])) == s[i]);
        assert(s.subrange(i, j) =~= dec_rep(n));
    } else {
        let m = digits_val(s, i, j - 1);
        let d = digit_val(s[j - 1]);
        assert(n == m * 10 + d);
        lemma_digits_val_pos(s, i, j - 1);
        assert(m >= 1);
        assert(n >= 10);
        assert(n / 10 == m && n % 10 == d) by (nonlinear_arith)
            requires
                n == m * 10 + d,
                0 <= d < 10,
        ;
        lemma_digits_canonical(s, i, j - 1);
        assert(dec_rep(n) == dec_rep(m) + seq![digit_char(d)]);
        assert(digit_char(digit_val(s[j - 1])) == s[j - 1]);
        assert(s.subrange(i, j) =~= s.subrange(i, j - 1) + seq![s[j - 1]]);
    }
}

/// What a whole-number field parse yields: the digit run, its value, and
/// minimality, or nothing where no acceptable numeral starts at `i`.
pub open spec fn parse_number_at(s: Seq<char>, i: int) -> Option<(usize, int)> {
    let j = digits_end(s, i);
    if j > i && (j - i == 1 || s[i] != '0') && digits_val(s, i, j) <= usize::MAX as nat {
        Some((digits_val(s, i, j) as usize, j))
    } else {
        None
    }
}

/// The value of one character as a decimal digit; 10 where it is none.
fn digit_value(c: char) -> (r: usize)
    ensures
        r as int == digit_val(c),
{
    if c == '0' {
        0
    } else if c == '1' {
        1
    } else if c == '2' {
        2
    } else if c == '3' {
        3
    } else if c == '4' {
        4
    } else if c == '5' {
        5
    } else if c == '6' {
        6
    } else if c == '7' {
        7
    } else if c == '8' {
        8
    } else if c == '9' {
        9
    } else {
        10
    }
}

/// Runs the whole-number field parse of [`parse_number_at`].
fn parse_number(v: &Vec<char>, start: usize) -> (r: Option<(usize, usize)>)
    requires
        start <= v@.len(),
    ensures
        match r {
            Some(p) => parse_number_at(v@, start as int) == Some((p.0, p.1 as int)) && start
                < p.1 <= v@.len(),
            None => parse_number_at(v@, start as int) is None,
        },
{
    let n = v.len();
    proof {
        lemma_digits_end_props(v@, start as int);
    }
    if start == n || digit_value(v[start]) == 10 {
        return None;
    }
    if v[start] == '0' {
        if start + 1 < n && digit_value(v[start + 1]) < 10 {
            // a leading zero before further digits: not minimal
            proof {
                lemma_digits_end_props(v@, start + 2);
                lemma_digits_end_advance(v@, start as int, start + 2);
            }
            return None;
        }
        proof {
            lemma_digits_end_advance(v@, start as int, start + 1);
            assert(digits_end(v@, start + 1) == start + 1);
            assert(digits_val(v@, start as int, start as int) == 0);
            assert(digits_val(v@, start as int, start + 1) == digit_val('0'));
        }
        return Some((0, start + 1));
    }
    let mut cur = start;
    let mut acc: usize = 0;
    loop
        invariant
            start <= cur <= n,
            start < n,
            n == v@.len(),
            forall|q: int| start <= q < cur ==> is_digit(v@[q]),
            acc as nat == digits_val(v@, start as int, cur as int),
            v@[start as int] != '0',
            is_digit(v@[start as int]),
        ensures
            start < cur <= n,
            acc as nat == digits_val(v@, start as int, cur as int),
            digits_end(v@, start as int) == cur as int,
        decreases n - cur,
    {
        if cur == n {
            proof {
                lemma_digits_end_advance(v@, start as int, cur as int);
                assert(digits_end(v@, cur as int) == cur);
            }
            break ;
        }
        let d = digit_value(v[cur]);
        if d == 10 {
            proof {
                lemma_digits_end_advance(v@, start as int, cur as int);
                assert(!is_digit(v@[cur as int]));
                assert(digits_end(v@, cur as int) == cur);
            }
            break ;
        }
        let step = match acc.checked_mul(10) {
            Some(x) => x.checked_add(d),
            None => None,
        };
        match step {
            Some(next) => {
                acc = next;
                cur = cur + 1;
            },
            None => {
                // the numeral does not fit the counter
                proof {
                    let j = digits_end(v@, start as int);
                    lemma_digits_end_advance(v@, start as int, cur as int);
                    assert(digits_end(v@, cur as int) == digits_end(v@, cur + 1));
                    lemma_digits_end_props(v@, cur + 1);
                    assert(digits_val(v@, start as int, cur + 1) > usize::MAX as nat);
                    lemma_digits_val_mono(v@, start as int, cur + 1, j);
                }
                return None;
            },
        }
    }
    proof {
        assert(digits_end(v@, start as int) == cur);
        assert(cur > start);
    }
    Some((acc, cur))
}

// ---------------------------------------------------------------------
// The decoder: fixed pieces and the whole record.
// ---------------------------------------------------------------------

/// Whether the text `lit` occurs in `s` at position `i`.
pub open spec fn lit_at(s: Seq<char>, i: int, lit: Seq<char>) -> bool {
    i + lit.len() <= s.len() && s.subrange(i, i + lit.len()) == lit
}

/// Checks one fixed piece of the encoding at position `i`.
fn expect_lit(v: &Vec<char>, i: usize, lit: &str) -> (r: Option<usize>)
    requires
        i <= v@.len(),
    ensures
        match r {
            Some(j) => lit_at(v@, i as int, lit@) && j as int == i + lit@.len() && i <= j
                <= v@.len(),
            None => !lit_at(v@, i as int, lit@),
        },
{
    let n = v.len();
    let m = lit.unicode_len();
    if n - i < m {
        return None;
    }
    let mut t: usize = 0;
    while t < m
        invariant
            t <= m,
            m == lit@.len(),
            i + m <= n,
            n == v@.len(),
            forall|q: int| 0 <= q < t ==> v@[i + q] == lit@[q],
        decreases m - t,
    {
        if v[i + t] != lit.get_char(t) {
            proof {
                assert(v@.subrange(i as int, i + lit@.len())[t as int] == v@[i + t]);
            }
            return None;
        }
        t = t + 1;
    }
    proof {
        assert(v@.subrange(i as int, i + lit@.len()) =~= lit@);
    }
    Some(i + m)
}

/// The characters of a text, one by one.
fn str_chars(s: &str) -> (r: Vec<char>)
    ensures
        r@ == s@,
{
    let n = s.unicode_len();
    let mut r: Vec<char> = Vec::new();
    let mut i: usize = 0;
    while i < n
        invariant
            i <= n,
            n == s@.len(),
            r@ == s@.take(i as int),
        decreases n - i,
    {
        let c = s.get_char(i);
        r.push(c);
        proof {
            assert(s@.take(i + 1) =~= s@.take(i as int).push(c));
        }
        i = i + 1;
    }
    proof {
        assert(s@.take(n as int) =~= s@);
    }
    r
}

/// Where each piece of `encoded(w)` begins and ends.
spec fn off1(w: ShortlinkV) -> int {
    lit_kw().len() as int
}

spec fn off2(w: ShortlinkV) -> int {
    off1(w) + escape(w.keyword).len() + 1
}

spec fn off3(w: ShortlinkV) -> int {
    off2(w) + lit_url().len()
}

spec fn off4(w: ShortlinkV) -> int {
    off3(w) + escape(w.url).len() + 1
}

spec fn off5(w: ShortlinkV) -> int {
    off4(w) + lit_owner().len()
}

spec fn off6(w: ShortlinkV) -> int {
    off5(w) + escape(w.owner).len() + 1
}

spec fn off7(w: ShortlinkV) -> int {
    off6(w) + lit_hits().len()
}

spec fn off8(w: ShortlinkV) -> int {
    off7(w) + dec_rep(w.hits as nat).len()
}

spec fn off9(w: ShortlinkV) -> int {
    off8(w) + lit_private().len()
}

spec fn off10(w: ShortlinkV) -> int {
    off9(w) + bool_rep(w.private).len()
}

spec fn off11(w: ShortlinkV) -> int {
    off10(w) + lit_desc().len()
}

spec fn off12(w: ShortlinkV) -> int {
    off11(w) + escape(w.description).len() + 1
}

/// How the parsers see the encoding of `w`: each fixed piece sits at its
/// offset, and each field parse succeeds with exactly that field.
#[verifier::rlimit(60)]
proof fn lemma_encoded_structure(s: Seq<char>, w: ShortlinkV)
    requires
        s == encoded(w),
    ensures
        s.len() == off12(w) + 1,
        lit_at(s, 0, lit_kw()),
        parse_str_body(s, off1(w)) == Some((w.keyword, off2(w))),
        lit_at(s, off2(w), lit_url()),
        parse_str_body(s, off3(w)) == Some((w.url, off4(w))),
        lit_at(s, off4(w), lit_owner()),
        parse_str_body(s, off5(w)) == Some((w.owner, off6(w))),
        lit_at(s, off6(w), lit_hits()),
        parse_number_at(s, off7(w)) == Some((w.hits, off8(w))),
        lit_at(s, off8(w), lit_private()),
        w.private ==> lit_at(s, off9(w), "true"@),
        !w.private ==> lit_at(s, off9(w), "false"@) && !lit_at(s, off9(w), "true"@),
        lit_at(s, off10(w), lit_desc()),
        parse_str_body(s, off11(w)) == Some((w.description, off12(w))),
        lit_at(s, off12(w), "}"@),
{
    reveal_strlit("{\"keyword\":\"");
    reveal_strlit(",\"url\":\"");
    reveal_strlit(",\"owner\":\"");
    reveal_strlit(",\"hits\":");
    reveal_strlit(",\"private\":");
    reveal_strlit(",\"description\":\"");
    reveal_strlit("true");
    reveal_strlit("false");
    reveal_strlit("}");
    lemma_dec_rep_props(w.hits as nat);
    assert(s.subrange(0, off1(w)) =~= lit_kw());
    assert(s.subrange(off1(w), off2(w) - 1) =~= escape(w.keyword));
    assert(s[off2(w) - 1] == '"');
    lemma_parse_str_complete(s, off1(w), w.keyword);
    assert(s.subrange(off2(w), off3(w)) =~= lit_url());
    assert(s.subrange(off3(w), off4(w) - 1) =~= escape(w.url));
    assert(s[off4(w) - 1] == '"');
    lemma_parse_str_complete(s, off3(w), w.url);
    assert(s.subrange(off4(w), off5(w)) =~= lit_owner());
    assert(s.subrange(off5(w), off6(w) - 1) =~= escape(w.owner));
    assert(s[off6(w) - 1] == '"');
    lemma_parse_str_complete(s, off5(w), w.owner);
    assert(s.subrange(off6(w), off7(w)) =~= lit_hits());
    assert(s.subrange(off7(w), off8(w)) =~= dec_rep(w.hits as nat));
    assert(s.subrange(off8(w), off9(w)) =~= lit_private());
    assert(s[off8(w)] == ',');
    assert forall|q: int| off7(w) <= q < off8(w) implies is_digit(s[q]) by {
        assert(s.subrange(off7(w), off8(w))[q - off7(w)] == s[q]);
        assert(is_digit(dec_rep(w.hits as nat)[q - off7(w)]));
    }
    lemma_digits_end_advance(s, off7(w), off8(w));
    assert(!is_digit(s[off8(w)]));
    assert(digits_end(s, off8(w)) == off8(w));
    lemma_dec_rep_val(s, off7(w), w.hits as nat);
    assert(s[off7(w)] == dec_rep(w.hits as nat)[0]);
    if w.hits >= 1 {
        assert(s[off7(w)] != '0');
    } else {
        assert(off8(w) - off7(w) == 1);
    }
    assert(parse_number_at(s, off7(w)) == Some((w.hits, off8(w))));
    if w.private {
        assert(s.subrange(off9(w), off10(w)) =~= "true"@);
    } else {
        assert(s.subrange(off9(w), off10(w)) =~= "false"@);
        assert(s[off9(w)] == 'f');
        assert(!lit_at(s, off9(w), "true"@)) by {
            if lit_at(s, off9(w), "true"@) {
                assert(s.subrange(off9(w), off9(w) + 4)[0] == s[off9(w)]);
            }
        }
    }
    assert(s.subrange(off10(w), off11(w)) =~= lit_desc());
    assert(s.subrange(off11(w), off12(w) - 1) =~= escape(w.description));
    assert(s[off12(w) - 1] == '"');
    lemma_parse_str_complete(s, off11(w), w.description);
    assert(s.subrange(off12(w), off12(w) + 1) =~= "}"@);
}

/// Distinct records have distinct encodings.
pub proof fn lemma_encoded_injective(a: ShortlinkV, b: ShortlinkV)
    requires
        encoded(a) == encoded(b),
    ensures
        a == b,
{
    let s = encoded(a);
    lemma_encoded_structure(s, a);
    lemma_encoded_structure(s, b);
    assert(off1(a) == off1(b));
    assert(a.keyword == b.keyword && off2(a) == off2(b));
    assert(off3(a) == off3(b));
    assert(a.url == b.url && off4(a) == off4(b));
    assert(off5(a) == off5(b));
    assert(a.owner == b.owner && off6(a) == off6(b));
    assert(off7(a) == off7(b));
    assert(a.hits == b.hits && off8(a) == off8(b));
    assert(off9(a) == off9(b));
    if a.private != b.private {
        assert(lit_at(s, off9(a), "true"@));
        assert(false);
    }
    assert(off11(a) == off11(b));
    assert(a.description == b.description);
    assert(a =~= b);
}

/// Decodes a store value back into a record. Succeeds exactly on the image
/// of [`encode_shortlink`], and decoding inverts encoding; anything else is
/// a decode failure.
#[verifier::rlimit(100)]
#[verifier::spinoff_prover]
pub fn decode_shortlink(s: &str) -> (r: Result<Shortlink, DatabaseError>)
    ensures
        match r {
            Ok(w) => s@ == encoded(w@),
            Err(e) => e == DatabaseError::DecodeFailure,
        },
        forall|v: ShortlinkV| s@ == encoded(v) ==> r is Ok && r->Ok_0@ == v,
{
    let v = str_chars(s);
    let i1 = match expect_lit(&v, 0, "{\"keyword\":\"") {
        Some(j) => j,
        None => {
            proof {
                assert forall|w: ShortlinkV| s@ != encoded(w) by {
                    if s@ == encoded(w) {
                        lemma_encoded_structure(s@, w);
                    }
                }
            }
            return Err(DatabaseError::DecodeFailure);
        },
    };
    let (kw, i2) = match parse_string(&v, i1) {
        Some(p) => p,
        None => {
            proof {
                assert forall|w: ShortlinkV| s@ != encoded(w) by {
                    if s@ == encoded(w) {
                        lemma_encoded_structure(s@, w);
                    }
                }
            }
            return Err(DatabaseError::DecodeFailure);
        },
    };
    let i3 = match expect_lit(&v, i2, ",\"url\":\"") {
        Some(j) => j,
        None => {
            proof {
                assert forall|w: ShortlinkV| s@ != encoded(w) by {
                    if s@ == encoded(w) {
                        lemma_encoded_structure(s@, w);
                    }
                }
            }
            return Err(DatabaseError::DecodeFailure);
        },
    };
    let (url, i4) = match parse_string(&v, i3) {
        Some(p) => p,
        None => {
            proof {
                assert forall|w: ShortlinkV| s@ != encoded(w) by {
                    if s@ == encoded(w) {
                        lemma_encoded_structure(s@, w);
                    }
                }
            }
            return Err(DatabaseError::DecodeFailure);
        },
    };
    let i5 = match expect_lit(&v, i4, ",\"owner\":\"") {
        Some(j) => j,
        None => {
            proof {
                assert forall|w: ShortlinkV| s@ != encoded(w) by {
                    if s@ == encoded(w) {
                        lemma_encoded_structure(s@, w);
                    }
                }
            }
            return Err(DatabaseError::DecodeFailure);
        },
    };
    let (owner, i6) = match parse_string(&v, i5) {
        Some(p) => p,
        None => {
            proof {
                assert forall|w: ShortlinkV| s@ != encoded(w) by {
                    if s@ == encoded(w) {
                        lemma_encoded_structure(s@, w);
                    }
                }
            }
            return Err(DatabaseError::DecodeFailure);
        },
    };
    let i7 = match expect_lit(&v, i6, ",\"hits\":") {
        Some(j) => j,
        None => {
            proof {
                assert forall|w: ShortlinkV| s@ != encoded(w) by {
                    if s@ == encoded(w) {
                        lemma_encoded_structure(s@, w);
                    }
                }
            }
            return Err(DatabaseError::DecodeFailure);
        },
    };
    let (hits, i8) = match parse_number(&v, i7) {
        Some(p) => p,
        None => {
            proof {
                assert forall|w: ShortlinkV| s@ != encoded(w) by {
                    if s@ == encoded(w) {
                        lemma_encoded_structure(s@, w);
                    }
                }
            }
            return Err(DatabaseError::DecodeFailure);
        },
    };
    let i9 = match expect_lit(&v, i8, ",\"private\":") {
        Some(j) => j,
        None => {
            proof {
                assert forall|w: ShortlinkV| s@ != encoded(w) by {
                    if s@ == encoded(w) {
                        lemma_encoded_structure(s@, w);
                    }
                }
            }
            return Err(DatabaseError::DecodeFailure);
        },
    };
    let (private, i10) = match expect_lit(&v, i9, "true") {
        Some(j) => (true, j),
        None => match expect_lit(&v, i9, "false") {
            Some(j) => (false, j),
            None => {
                proof {
                    assert forall|w: ShortlinkV| s@ != encoded(w) by {
                        if s@ == encoded(w) {
                            lemma_encoded_structure(s@, w);
                        }
                    }
                }
                return Err(DatabaseError::DecodeFailure);
            },
        },
    };
    let i11 = match expect_lit(&v, i10, ",\"description\":\"") {
        Some(j) => j,
        None => {
            proof {
                assert forall|w: ShortlinkV| s@ != encoded(w) by {
                    if s@ == encoded(w) {
                        lemma_encoded_structure(s@, w);
                    }
                }
            }
            return Err(DatabaseError::DecodeFailure);
        },
    };
    let (description, i12) = match parse_string(&v, i11) {
        Some(p) => p,
        None => {
            proof {
                assert forall|w: ShortlinkV| s@ != encoded(w) by {
                    if s@ == encoded(w) {
                        lemma_encoded_structure(s@, w);
                    }
                }
            }
            return Err(DatabaseError::DecodeFailure);
        },
    };
    let i13 = match expect_lit(&v, i12, "}") {
        Some(j) => j,
        None => {
            proof {
                assert forall|w: ShortlinkV| s@ != encoded(w) by {
                    if s@ == encoded(w) {
                        lemma_encoded_structure(s@, w);
                    }
                }
            }
            return Err(DatabaseError::DecodeFailure);
        },
    };
    if i13 != v.len() {
        proof {
            assert forall|w: ShortlinkV| s@ != encoded(w) by {
                if s@ == encoded(w) {
                    lemma_encoded_structure(s@, w);
                }
            }
        }
        return Err(DatabaseError::DecodeFailure);
    }
    let record = Shortlink {
        keyword: kw,
        url: url,
        owner: owner,
        hits: hits,
        private: private,
        description: description,
    };
    proof {
        lemma_parse_str_sound(v@, i1 as int);
        lemma_parse_str_sound(v@, i3 as int);
        lemma_parse_str_sound(v@, i5 as int);
        lemma_parse_str_sound(v@, i11 as int);
        lemma_digits_end_props(v@, i7 as int);
        lemma_digits_canonical(v@, i7 as int, i8 as int);
        assert(s@ =~= encoded(record@));
        assert forall|w: ShortlinkV| s@ == encoded(w) implies w == record@ by {
            lemma_encoded_injective(w, record@);
        }
    }
    Ok(record)
}

} // verus!
