//! Line-level pieces of the OpenQASM loader: comments, register
//! declarations, qubit references, gate definition headers, gate body
//! statements, and the error text naming a line.
use vstd::prelude::*;
use crate::text::{str_chars, string_from_chars, trim_bounds, sub_chars, trim_seq, is_ws, char_is_whitespace,
    push_str, string_push, usize_to_string, decimal, digit_char};

verus! {

/// The first index at or after `i` holding `c`, or the length.
pub open spec fn index_from(s: Seq<char>, c: char, i: int) -> int
    decreases s.len() - i,
{
    if i >= s.len() { s.len() as int } else if s[i] == c { i } else { index_from(s, c, i + 1) }
}

/// Where `c` first occurs in `s`, as `str::find` gives it.
pub open spec fn find_char(s: Seq<char>, c: char) -> Option<int> {
    let i = index_from(s, c, 0);
    if i < s.len() { Some(i) } else { None }
}

pub proof fn lemma_index_from(s: Seq<char>, c: char, i: int)
    requires
        0 <= i <= s.len(),
    ensures
        i <= index_from(s, c, i) <= s.len(),
        forall|j: int| i <= j < index_from(s, c, i) ==> s[j] != c,
        index_from(s, c, i) < s.len() ==> s[index_from(s, c, i)] == c,
    decreases s.len() - i,
{
    if i < s.len() && s[i] != c {
        lemma_index_from(s, c, i + 1);
    }
}

/// Searching a suffix is searching the whole from where the suffix starts.
pub proof fn lemma_index_from_skip(s: Seq<char>, c: char, p: int, i: int)
    requires
        0 <= p <= s.len(),
        0 <= i <= s.len() - p,
    ensures
        index_from(s.skip(p), c, i) == index_from(s, c, p + i) - p,
    decreases s.len() - p - i,
{
    if i < s.len() - p && s[p + i] != c {
        lemma_index_from_skip(s, c, p, i + 1);
    }
}

/// The first index at or after `start` holding `c`, if any.
fn find_char_from(v: &Vec<char>, c: char, start: usize) -> (r: Option<usize>)
    requires
        start <= v@.len(),
    ensures
        r matches Some(i) ==> i == index_from(v@, c, start as int) && i < v@.len(),
        r is None ==> index_from(v@, c, start as int) == v@.len(),
{
    let mut i = start;
    proof {
        lemma_index_from(v@, c, start as int);
    }
    while i < v.len()
        invariant
            start <= i <= v@.len(),
            index_from(v@, c, i as int) == index_from(v@, c, start as int),
        decreases v@.len() - i,
    {
        if v[i] == c {
            return Some(i);
        }
        i += 1;
    }
    None
}

/// Where a `//` comment starts in `s`, if anywhere.
pub open spec fn comment_from(s: Seq<char>, i: int) -> int
    decreases s.len() - i,
{
    if i + 1 >= s.len() { s.len() as int } else if s[i] == '/' && s[i + 1] == '/' { i } else { comment_from(s, i + 1) }
}

/// The line without its `//` comment, if it has one.
pub open spec fn without_comment(s: Seq<char>) -> Seq<char> {
    let i = comment_from(s, 0);
    if i < s.len() { s.take(i) } else { s }
}

proof fn lemma_comment_from(s: Seq<char>, i: int)
    requires
        0 <= i,
    ensures
        comment_from(s, i) == s.len() || i <= comment_from(s, i) < s.len(),
    decreases s.len() - i,
{
    if i + 1 < s.len() && !(s[i] == '/' && s[i + 1] == '/') {
        lemma_comment_from(s, i + 1);
    }
}

/// The line up to its first `//`, or the whole line.
pub fn strip_comment(line: &str) -> (r: String)
    ensures
        r@ == without_comment(line@),
{
    let v = str_chars(line);
    let mut i: usize = 0;
    proof {
        lemma_comment_from(v@, 0);
    }
    while i < v.len() && i + 1 < v.len() && !(v[i] == '/' && v[i + 1] == '/')
        invariant
            v@ == line@,
            i <= v@.len(),
            comment_from(v@, i as int) == comment_from(v@, 0),
        decreases v@.len() - i,
    {
        i += 1;
    }
    if i < v.len() && i + 1 < v.len() {
        let t = sub_chars(&v, 0, i);
        assert(t@ =~= v@.take(i as int));
        string_from_chars(&t)
    } else {
        string_from_chars(&v)
    }
}

/// The trimmed characters of `v`.
fn trim_chars(v: &Vec<char>) -> (r: Vec<char>)
    ensures
        r@ == trim_seq(v@),
{
    let (a, b) = trim_bounds(v);
    sub_chars(v, a, b)
}

/// `s` without its trailing `c`s.
pub open spec fn trim_end_char(s: Seq<char>, c: char) -> Seq<char>
    decreases s.len(),
{
    if s.len() > 0 && s.last() == c { trim_end_char(s.drop_last(), c) } else { s }
}

/// `v` without its trailing `c`s.
fn trim_end_chars(v: &Vec<char>, c: char) -> (r: Vec<char>)
    ensures
        r@ == trim_end_char(v@, c),
{
    let mut n = v.len();
    assert(v@.take(n as int) =~= v@);
    while n > 0 && v[n - 1] == c
        invariant
            n <= v@.len(),
            trim_end_char(v@.take(n as int), c) == trim_end_char(v@, c),
        decreases n,
    {
        proof {
            assert(v@.take(n as int).drop_last() =~= v@.take(n - 1));
        }
        n -= 1;
    }
    proof {
        assert(v@.take(n as int) =~= v@.subrange(0, n as int));
    }
    let r = sub_chars(v, 0, n);
    assert(v@.take(0) =~= v@.subrange(0, 0));
    r
}

/// A decimal digit.
pub open spec fn is_digit(c: char) -> bool {
    '0' <= c <= '9'
}

/// The value of a string of decimal digits.
pub open spec fn digits_value(s: Seq<char>) -> nat
    decreases s.len(),
{
    if s.len() == 0 { 0 } else { digits_value(s.drop_last()) * 10 + ((s.last() as int - '0' as int) as nat) }
}

/// Every character is a decimal digit.
pub open spec fn all_digits(d: Seq<char>) -> bool {
    forall|i: int| 0 <= i < d.len() ==> is_digit(#[trigger] d[i])
}

/// What `usize::from_str` gives: an optional `+` then one or more decimal
/// digits, whose value fits in a `usize`.
pub open spec fn parse_usize_spec(s: Seq<char>) -> Option<nat> {
    let d = if s.len() > 0 && s[0] == '+' { s.drop_first() } else { s };
    if d.len() > 0 && all_digits(d) && digits_value(d) <= usize::MAX {
        Some(digits_value(d))
    } else {
        None
    }
}

proof fn lemma_digits_value_mono(s: Seq<char>, k: int)
    requires
        0 <= k <= s.len(),
        forall|i: int| 0 <= i < s.len() ==> is_digit(#[trigger] s[i]),
    ensures
        digits_value(s.take(k)) <= digits_value(s),
    decreases s.len() - k,
{
    if k < s.len() {
        assert(s.drop_last().take(k) =~= s.take(k));
        assert forall|i: int| 0 <= i < s.drop_last().len() implies is_digit(#[trigger] s.drop_last()[i]) by {
            assert(s.drop_last()[i] == s[i]);
        }
        lemma_digits_value_mono(s.drop_last(), k);
        assert(is_digit(s[s.len() - 1]));
    } else {
        assert(s.take(k) =~= s);
    }
}

/// The value of a decimal digit.
fn digit_value(c: char) -> (d: usize)
    requires
        is_digit(c),
    ensures
        d == c as int - '0' as int,
        d <= 9,
{
    if c == '0' { 0 } else if c == '1' { 1 } else if c == '2' { 2 } else if c == '3' { 3 }
    else if c == '4' { 4 } else if c == '5' { 5 } else if c == '6' { 6 } else if c == '7' { 7 }
    else if c == '8' { 8 } else { 9 }
}

/// Parses `v[a..b]` as `usize::from_str` would.
pub(crate) fn parse_usize(v: &Vec<char>, a: usize, b: usize) -> (r: Option<usize>)
    requires
        a <= b <= v@.len(),
    ensures
        r == (match parse_usize_spec(v@.subrange(a as int, b as int)) { Some(n) => Some(n as usize), None => None }),
{
    let ghost s = v@.subrange(a as int, b as int);
    let mut i = a;
    if i < b && v[i] == '+' {
        i += 1;
    }
    let ghost d = if s.len() > 0 && s[0] == '+' { s.drop_first() } else { s };
    proof {
        assert(d =~= v@.subrange(i as int, b as int));
    }
    if i == b {
        return None;
    }
    let start = i;
    let mut val: usize = 0;
    while i < b
        invariant
            start <= i <= b <= v@.len(),
            d == v@.subrange(start as int, b as int),
            s == v@.subrange(a as int, b as int),
            d == (if s.len() > 0 && s[0] == '+' { s.drop_first() } else { s }),
            d.len() > 0,
            forall|j: int| 0 <= j < i - start ==> is_digit(#[trigger] d[j]),
            val == digits_value(d.take(i - start)),
        decreases b - i,
    {
        let c = v[i];
        proof {
            assert(d[i - start] == c);
        }
        if !('0' <= c && c <= '9') {
            proof {
                let w = i - start;
                assert(!is_digit(d[w]));
                assert(!all_digits(d));
                assert(parse_usize_spec(s) is None);
            }
            return None;
        }
        let dig = digit_value(c);
        proof {
            assert(d.take(i - start + 1).drop_last() =~= d.take(i - start));
            assert(d.take(i - start + 1).last() == c);
        }
        if val > (usize::MAX - dig) / 10 {
            proof {
                assert(val * 10 + dig > usize::MAX) by (nonlinear_arith)
                    requires val > (usize::MAX - dig) / 10, dig <= 9;
                assert forall|j: int| 0 <= j < i - start + 1 implies is_digit(#[trigger] d[j]) by {
                    if j == i - start {
                        assert(d[j] == c);
                    }
                }
                assert(digits_value(d.take(i - start + 1)) == val * 10 + dig);
                if all_digits(d) {
                    lemma_digits_value_mono(d, i - start + 1);
                    assert(digits_value(d) > usize::MAX);
                }
                assert(parse_usize_spec(s) is None);
            }
            return None;
        }
        val = val * 10 + dig;
        i += 1;
    }
    proof {
        assert(d.take(d.len() as int) =~= d);
    }
    Some(val)
}

/// `s` with every leading copy of `p` removed, as `str::trim_start_matches` does.
pub open spec fn strip_all(s: Seq<char>, p: Seq<char>) -> Seq<char>
    decreases s.len(),
{
    if p.len() > 0 && s.len() >= p.len() && s.take(p.len() as int) == p {
        strip_all(s.skip(p.len() as int), p)
    } else {
        s
    }
}

/// Whether `v[a..]` starts with `lit`.
fn starts_with_at(v: &Vec<char>, a: usize, lit: &Vec<char>) -> (r: bool)
    requires
        a <= v@.len(),
    ensures
        r == (v@.len() - a >= lit@.len() && v@.subrange(a as int, a + lit@.len()) == lit@),
{
    if v.len() - a < lit.len() {
        return false;
    }
    let mut k: usize = 0;
    while k < lit.len()
        invariant
            k <= lit@.len(),
            a <= v@.len(),
            v@.len() - a >= lit@.len(),
            forall|j: int| 0 <= j < k ==> v@[a + j] == lit@[j],
        decreases lit@.len() - k,
    {
        assert(a + k < v.len());
        if v[a + k] != lit[k] {
            assert(v@.subrange(a as int, a + lit@.len())[k as int] != lit@[k as int]);
            return false;
        }
        k += 1;
    }
    assert(v@.subrange(a as int, a + lit@.len()) =~= lit@);
    true
}

/// `v` with every leading copy of `lit` removed.
fn strip_all_chars(v: &Vec<char>, lit: &Vec<char>) -> (r: Vec<char>)
    ensures
        r@ == strip_all(v@, lit@),
{
    let mut a: usize = 0;
    assert(v@.skip(0) =~= v@);
    while lit.len() > 0 && starts_with_at(v, a, lit)
        invariant
            a <= v@.len(),
            strip_all(v@.skip(a as int), lit@) == strip_all(v@, lit@),
        decreases v@.len() - a,
    {
        proof {
            let w = v@.skip(a as int);
            assert(w.take(lit@.len() as int) =~= v@.subrange(a as int, a + lit@.len()));
            assert(w.skip(lit@.len() as int) =~= v@.skip(a + lit@.len()));
        }
        assert(a + lit.len() <= v.len());
        a = a + lit.len();
    }
    proof {
        let w = v@.skip(a as int);
        if lit@.len() > 0 && w.len() >= lit@.len() {
            assert(w.take(lit@.len() as int) =~= v@.subrange(a as int, a + lit@.len()));
        }
    }
    let r = sub_chars(v, a, v.len());
    assert(r@ =~= v@.skip(a as int));
    r
}

/// The text `'t'` quoted in single quotes, as the error messages write it.
pub open spec fn quoted(t: Seq<char>) -> Seq<char> {
    seq!['\''] + t + seq!['\'']
}

/// The line of a register declaration without trailing `;`s, trimmed.
pub open spec fn decl_text(line: Seq<char>) -> Seq<char> {
    trim_seq(trim_end_char(line, ';'))
}

/// The slices a register declaration is cut into lie in order: the first
/// `]` does not come before the first `[`.
pub open spec fn register_decl_ok(line: Seq<char>) -> bool {
    let t = decl_text(line);
    match (find_char(t, '['), find_char(t, ']')) {
        (Some(o), Some(c)) => o + 1 <= c,
        _ => true,
    }
}

/// What parsing a register declaration (`qreg NAME[N];` or `qubit[N] NAME;`)
/// gives: its name and size, or the error text.
pub open spec fn register_decl(line: Seq<char>) -> Result<(Seq<char>, nat), Seq<char>> {
    let t = decl_text(line);
    match find_char(t, '[') {
        None => Err("expected '[' in register declaration "@ + quoted(t)),
        Some(o) => match find_char(t, ']') {
            None => Err("expected ']' in register declaration "@ + quoted(t)),
            Some(c) => match parse_usize_spec(t.subrange(o + 1, c)) {
                None => Err("could not parse register size in "@ + quoted(t)),
                Some(size) => {
                    let name = if t.len() >= 4 && t.take(4) == "qreg"@ {
                        trim_seq(strip_all(t.take(o), "qreg"@))
                    } else {
                        trim_seq(t.skip(c + 1))
                    };
                    if name.len() == 0 {
                        Err("register declaration "@ + quoted(t) + " has no name"@)
                    } else {
                        Ok((name, size))
                    }
                },
            },
        },
    }
}

/// A message of the form `<prefix>'<t>'<suffix>`.
fn quoted_message(prefix: &str, t: &Vec<char>, suffix: &str) -> (m: String)
    ensures
        m@ == prefix@ + quoted(t@) + suffix@,
{
    let mut m = String::new();
    push_str(&mut m, prefix);
    string_push(&mut m, '\'');
    let ts = string_from_chars(t);
    push_str(&mut m, ts.as_str());
    string_push(&mut m, '\'');
    push_str(&mut m, suffix);
    assert(m@ =~= prefix@ + quoted(t@) + suffix@);
    m
}

/// A plain register name: one or more ASCII letters, digits and underscores.
pub open spec fn plain_name(name: Seq<char>) -> bool {
    &&& name.len() > 0
    &&& forall|i: int| 0 <= i < name.len() ==> {
        let c = #[trigger] name[i];
        ('a' <= c <= 'z') || ('A' <= c <= 'Z') || ('0' <= c <= '9') || c == '_'
    }
}

/// The declaration `qreg NAME[N];`.
pub open spec fn qreg_line(name: Seq<char>, n: nat) -> Seq<char> {
    seq!['q', 'r', 'e', 'g', ' '] + name + seq!['['] + decimal(n) + seq![']', ';']
}

/// The declaration `qubit[N] NAME;`.
pub open spec fn qubit_line(name: Seq<char>, n: nat) -> Seq<char> {
    seq!['q', 'u', 'b', 'i', 't', '['] + decimal(n) + seq![']', ' '] + name + seq![';']
}

/// `decimal(n)` is a non-empty run of digits worth `n`.
proof fn lemma_decimal(n: nat)
    ensures
        decimal(n).len() > 0,
        all_digits(decimal(n)),
        digits_value(decimal(n)) == n,
    decreases n,
{
    if n >= 10 {
        lemma_decimal(n / 10);
        let d = decimal(n);
        assert(d.drop_last() =~= decimal(n / 10));
        assert forall|i: int| 0 <= i < d.len() implies is_digit(#[trigger] d[i]) by {
            if i < d.len() - 1 {
                assert(d[i] == decimal(n / 10)[i]);
            }
        }
        let r = n % 10;
        assert(digit_char(r) as int - '0' as int == r) by {
            assert(r < 10);
        }
        assert(d.last() == digit_char(r));
        assert(n == (n / 10) * 10 + r);
        assert(digits_value(d) == digits_value(decimal(n / 10)) * 10 + r);
    } else {
        let d = decimal(n);
        assert(digit_char(n) as int - '0' as int == n);
        assert(d.drop_last() =~= Seq::<char>::empty());
        assert(digits_value(d) == digits_value(d.drop_last()) * 10 + ((d.last() as int - '0' as int) as nat));
        assert(is_digit(d[0]));
    }
}

/// `index_from` finds `c` at `k` when it is there and not before, from `i`.
proof fn lemma_index_at(s: Seq<char>, c: char, i: int, k: int)
    requires
        0 <= i <= k < s.len(),
        s[k] == c,
        forall|j: int| i <= j < k ==> s[j] != c,
    ensures
        index_from(s, c, i) == k,
    decreases k - i,
{
    if i < k {
        lemma_index_at(s, c, i + 1, k);
    }
}

/// Trimming a text that neither starts nor ends with whitespace keeps it.
proof fn lemma_trim_keeps(s: Seq<char>)
    requires
        s.len() > 0,
        !is_ws(s[0]),
        !is_ws(s[s.len() - 1]),
    ensures
        trim_seq(s) == s,
{
    assert(crate::text::ws_prefix_end(s, 0) == 0);
    assert(crate::text::ws_suffix_start(s, s.len() as int, 0) == s.len());
    assert(s.subrange(0, s.len() as int) =~= s);
}

/// Trimming a space followed by a plain name gives the name.
proof fn lemma_trim_space_name(name: Seq<char>)
    requires
        plain_name(name),
    ensures
        trim_seq(seq![' '] + name) == name,
{
    let s = seq![' '] + name;
    assert(s[0] == ' ');
    assert(s[1] == name[0]);
    assert(crate::text::ws_prefix_end(s, 1) == 1);
    assert(crate::text::ws_prefix_end(s, 0) == 1);
    assert(s[s.len() - 1] == name[name.len() - 1]);
    assert(crate::text::ws_suffix_start(s, s.len() as int, 1) == s.len());
    assert(s.subrange(1, s.len() as int) =~= name);
}

/// A register declaration written out is read back: for a plain name and
/// any size, both `qreg NAME[N];` and `qubit[N] NAME;` parse to that name
/// and size.
pub proof fn lemma_register_round_trip(name: Seq<char>, n: usize)
    requires
        plain_name(name),
    ensures
        register_decl_ok(qreg_line(name, n as nat)),
        register_decl(qreg_line(name, n as nat)) == Ok::<(Seq<char>, nat), Seq<char>>((name, n as nat)),
        register_decl_ok(qubit_line(name, n as nat)),
        register_decl(qubit_line(name, n as nat)) == Ok::<(Seq<char>, nat), Seq<char>>((name, n as nat)),
{
    lemma_qreg_round_trip(name, n);
    lemma_qubit_round_trip(name, n);
}

#[verifier::rlimit(40)]
proof fn lemma_qreg_round_trip(name: Seq<char>, n: usize)
    requires
        plain_name(name),
    ensures
        register_decl_ok(qreg_line(name, n as nat)),
        register_decl(qreg_line(name, n as nat)) == Ok::<(Seq<char>, nat), Seq<char>>((name, n as nat)),
{
    reveal_strlit("qreg");
    let d = decimal(n as nat);
    lemma_decimal(n as nat);
    let m = name.len() as int;
    let k = d.len() as int;
    assert(d[0] != '+') by { assert(is_digit(d[0])); }
    let l = qreg_line(name, n as nat);
    let t = seq!['q', 'r', 'e', 'g', ' '] + name + seq!['['] + d + seq![']'];
    assert(l.drop_last() =~= t);
    assert(trim_end_char(t, ';') == t);
    assert(trim_end_char(l, ';') == t);
    assert(t[0] == 'q');
    assert(t[t.len() - 1] == ']');
    lemma_trim_keeps(t);
    assert(decl_text(l) == t);
    assert forall|j: int| 0 <= j < 5 + m implies t[j] != '[' && t[j] != ']' by {
        if j >= 5 { assert(t[j] == name[j - 5]); }
    }
    assert(t[5 + m] == '[');
    assert forall|j: int| 5 + m < j < 6 + m + k implies t[j] != ']' by {
        assert(t[j] == d[j - 6 - m]);
        assert(is_digit(d[j - 6 - m]));
    }
    assert(t[6 + m + k] == ']');
    lemma_index_at(t, '[', 0, 5 + m);
    lemma_index_at(t, ']', 0, 6 + m + k);
    assert(t.subrange(6 + m, 6 + m + k) =~= d);
    assert(t.take(4) =~= "qreg"@);
    let pre = t.take(5 + m);
    assert(pre.take(4) =~= "qreg"@);
    assert(pre.skip(4) =~= seq![' '] + name);
    assert(strip_all(pre.skip(4), "qreg"@) == pre.skip(4)) by {
        if pre.skip(4).len() >= 4 {
            assert(pre.skip(4).take(4)[0] == ' ');
            assert("qreg"@[0] == 'q');
        }
    }
    assert(strip_all(pre, "qreg"@) == seq![' '] + name);
    lemma_trim_space_name(name);
}

#[verifier::rlimit(40)]
proof fn lemma_qubit_round_trip(name: Seq<char>, n: usize)
    requires
        plain_name(name),
    ensures
        register_decl_ok(qubit_line(name, n as nat)),
        register_decl(qubit_line(name, n as nat)) == Ok::<(Seq<char>, nat), Seq<char>>((name, n as nat)),
{
    reveal_strlit("qreg");
    let d = decimal(n as nat);
    lemma_decimal(n as nat);
    let m = name.len() as int;
    let k = d.len() as int;
    assert(d[0] != '+') by { assert(is_digit(d[0])); }
    let l2 = qubit_line(name, n as nat);
    let t2 = seq!['q', 'u', 'b', 'i', 't', '['] + d + seq![']', ' '] + name;
    assert(l2.drop_last() =~= t2);
    assert(t2[t2.len() - 1] == name[m - 1]);
    assert(trim_end_char(t2, ';') == t2);
    assert(trim_end_char(l2, ';') == t2);
    assert(t2[0] == 'q');
    lemma_trim_keeps(t2);
    assert(decl_text(l2) == t2);
    assert forall|j: int| 0 <= j < 6 + k implies t2[j] != ']' by {
        if j >= 6 { assert(t2[j] == d[j - 6]); assert(is_digit(d[j - 6])); }
    }
    assert forall|j: int| 0 <= j < 5 implies t2[j] != '[' by {}
    assert(t2[5] == '[');
    assert(t2[6 + k] == ']');
    lemma_index_at(t2, '[', 0, 5);
    lemma_index_at(t2, ']', 0, 6 + k);
    assert(t2.subrange(6, 6 + k) =~= d);
    assert(t2.take(4) != "qreg"@) by {
        assert(t2.take(4)[1] == 'u');
        assert("qreg"@[1] == 'r');
    }
    assert(t2.skip(7 + k) =~= seq![' '] + name);
    lemma_trim_space_name(name);
}

/// Parses a register declaration in either OpenQASM 2 (`qreg NAME[N];`) or
/// OpenQASM 3 (`qubit[N] NAME;`) spelling into its name and size.
pub fn parse_register_decl(line: &str) -> (r: Result<(String, usize), String>)
    requires
        register_decl_ok(line@),
    ensures
        match register_decl(line@) {
            Ok((name, size)) => r matches Ok((n, sz)) && n@ == name && sz == size,
            Err(e) => r matches Err(m) && m@ == e,
        },
{
    let v = str_chars(line);
    let u = trim_end_chars(&v, ';');
    let t = trim_chars(&u);
    proof {
        reveal_strlit("");
        assert(t@ == decl_text(line@));
        lemma_index_from(t@, '[', 0);
        lemma_index_from(t@, ']', 0);
    }
    let open = match find_char_from(&t, '[', 0) {
        Some(o) => o,
        None => {
            return Err(quoted_message("expected '[' in register declaration ", &t, ""));
        },
    };
    let close = match find_char_from(&t, ']', 0) {
        Some(c) => c,
        None => {
            return Err(quoted_message("expected ']' in register declaration ", &t, ""));
        },
    };
    let size = match parse_usize(&t, open + 1, close) {
        Some(n) => n,
        None => {
            return Err(quoted_message("could not parse register size in ", &t, ""));
        },
    };
    let qreg = vec!['q', 'r', 'e', 'g'];
    proof {
        reveal_strlit("qreg");
        assert(qreg@ =~= "qreg"@);
    }
    let name = if starts_with_at(&t, 0, &qreg) {
        proof {
            assert(t@.subrange(0, 4) =~= t@.take(4));
        }
        let head = sub_chars(&t, 0, open);
        assert(head@ =~= t@.take(open as int));
        let stripped = strip_all_chars(&head, &qreg);
        trim_chars(&stripped)
    } else {
        proof {
            if t@.len() >= 4 {
                assert(t@.subrange(0, 4) =~= t@.take(4));
            }
        }
        assert(close < t.len());
        let tail = sub_chars(&t, close + 1, t.len());
        assert(tail@ =~= t@.skip(close + 1));
        trim_chars(&tail)
    };
    if name.len() == 0 {
        return Err(quoted_message("register declaration ", &t, " has no name"));
    }
    Ok((string_from_chars(&name), size))
}

/// What `char::is_alphanumeric` gives for `c` (the Unicode Alphabetic or
/// Numeric property).
pub uninterp spec fn alphanumeric(c: char) -> bool;

/// Calls `char::is_alphanumeric`, which tests for the Unicode Alphabetic or
/// Numeric property. Its result is what the name `alphanumeric` stands for;
/// nothing more is stated of it.
#[verifier::external_body]
fn char_is_alphanumeric(c: char) -> (r: bool)
    ensures
        r == alphanumeric(c),
{
    c.is_alphanumeric()
}

/// A character that may be part of a register name.
pub open spec fn is_word(c: char) -> bool {
    alphanumeric(c) || c == '_'
}

/// The last position before `j` holding a character that is not part of a
/// name, or -1.
pub open spec fn last_non_word(s: Seq<char>, j: int) -> int
    decreases j,
{
    if j <= 0 { -1 } else if !is_word(s[j - 1]) { j - 1 } else { last_non_word(s, j - 1) }
}

proof fn lemma_last_non_word(s: Seq<char>, j: int)
    requires
        0 <= j <= s.len(),
    ensures
        -1 <= last_non_word(s, j) < j,
    decreases j,
{
    if j > 0 && is_word(s[j - 1]) {
        lemma_last_non_word(s, j - 1);
    }
}

/// The qubit references `name[index]` of a gate call's arguments, in order:
/// for each `[`, the name is the run of name characters before it (trimmed)
/// and the index the text up to the next `]`, kept when it parses; a `[`
/// without a later `]` ends the list.
pub open spec fn qubit_refs(rest: Seq<char>) -> Seq<(Seq<char>, nat)>
    decreases rest.len(),
{
    match find_char(rest, '[') {
        None => Seq::empty(),
        Some(st) => {
            let name = trim_seq(rest.subrange(last_non_word(rest, st) + 1, st));
            match find_char(rest.skip(st), ']') {
                None => Seq::empty(),
                Some(e) => {
                    let tail = if 0 <= st + e + 1 <= rest.len() && st + e + 1 > 0 { qubit_refs(rest.skip(st + e + 1)) } else { Seq::empty() };
                    match parse_usize_spec(rest.subrange(st + 1, st + e)) {
                        Some(i) => seq![(name, i)] + tail,
                        None => tail,
                    }
                },
            }
        },
    }
}

/// The references as text and number.
pub open spec fn refs_view(v: Seq<(String, usize)>) -> Seq<(Seq<char>, nat)> {
    v.map_values(|p: (String, usize)| (p.0@, p.1 as nat))
}

/// Reading the references stops with a panic: for a `[` that is reached,
/// the character that ends the name before it is not ASCII (the name would
/// start inside that character's bytes).
pub open spec fn refs_panic(rest: Seq<char>) -> bool
    decreases rest.len(),
{
    match find_char(rest, '[') {
        None => false,
        Some(st) => {
            let k = last_non_word(rest, st);
            (0 <= k < rest.len() && (rest[k] as u32) >= 128) || match find_char(rest.skip(st), ']') {
                None => false,
                Some(e) => if 0 <= st + e + 1 <= rest.len() && st + e + 1 > 0 { refs_panic(rest.skip(st + e + 1)) } else { false },
            }
        },
    }
}

/// Every qubit reference `name[index]` of a gate call's argument list, as
/// (register name, local index) pairs, in order -- e.g. `"a[0], b[0], cin[0]"`
/// gives `[("a",0), ("b",0), ("cin",0)]`.
pub fn named_qubit_refs(line: &str) -> (out: Vec<(String, usize)>)
    requires
        !refs_panic(line@),
    ensures
        refs_view(out@) == qubit_refs(line@),
{
    let mut rest = str_chars(line);
    let mut out: Vec<(String, usize)> = Vec::new();
    proof {
        assert(refs_view(out@) =~= Seq::<(Seq<char>, nat)>::empty());
        assert(refs_view(out@) + qubit_refs(rest@) =~= qubit_refs(line@));
    }
    loop
        invariant
            refs_view(out@) + qubit_refs(rest@) == qubit_refs(line@),
        decreases rest@.len(),
    {
        let ghost r0 = rest@;
        proof {
            lemma_index_from(r0, '[', 0);
        }
        let start = match find_char_from(&rest, '[', 0) {
            Some(st) => st,
            None => {
                assert(qubit_refs(r0) =~= Seq::<(Seq<char>, nat)>::empty());
                assert(refs_view(out@) =~= qubit_refs(line@));
                return out;
            },
        };
        let mut ns: usize = start;
        while ns > 0 && (char_is_alphanumeric(rest[ns - 1]) || rest[ns - 1] == '_')
            invariant
                ns <= start < rest@.len(),
                rest@ == r0,
                last_non_word(r0, ns as int) == last_non_word(r0, start as int),
            decreases ns,
        {
            ns -= 1;
        }
        proof {
            lemma_last_non_word(r0, start as int);
            assert(last_non_word(r0, start as int) + 1 == ns);
        }
        let name_chars = sub_chars(&rest, ns, start);
        let name = trim_chars(&name_chars);
        let tail_from_start = sub_chars(&rest, start, rest.len());
        proof {
            assert(tail_from_start@ =~= r0.skip(start as int));
            lemma_index_from(tail_from_start@, ']', 0);
        }
        let end = match find_char_from(&tail_from_start, ']', 0) {
            Some(e) => e,
            None => {
                assert(qubit_refs(r0) =~= Seq::<(Seq<char>, nat)>::empty());
                assert(refs_view(out@) =~= qubit_refs(line@));
                return out;
            },
        };
        proof {
            assert(tail_from_start@[0] == '[');
            assert(end >= 1);
        }
        let idx = parse_usize(&rest, start + 1, start + end);
        let next = sub_chars(&rest, start + end + 1, rest.len());
        proof {
            assert(next@ =~= r0.skip(start + end + 1));
        }
        let ghost out0 = out@;
        match idx {
            Some(i) => {
                out.push((string_from_chars(&name), i));
                proof {
                    assert(refs_view(out@) =~= refs_view(out0) + seq![(name@, i as nat)]);
                    assert(refs_view(out@) + qubit_refs(next@) =~= refs_view(out0) + qubit_refs(r0));
                }
            },
            None => {},
        }
        rest = next;
    }
}

/// Whether reading the references of `line` would stop with a panic (see
/// `refs_panic`).
pub fn qubit_refs_would_panic(line: &str) -> (b: bool)
    ensures
        b == refs_panic(line@),
{
    let mut rest = str_chars(line);
    loop
        invariant
            refs_panic(rest@) == refs_panic(line@),
        decreases rest@.len(),
    {
        let ghost r0 = rest@;
        proof {
            lemma_index_from(r0, '[', 0);
        }
        let start = match find_char_from(&rest, '[', 0) {
            Some(st) => st,
            None => { return false; },
        };
        let mut ns: usize = start;
        while ns > 0 && (char_is_alphanumeric(rest[ns - 1]) || rest[ns - 1] == '_')
            invariant
                ns <= start < rest@.len(),
                rest@ == r0,
                last_non_word(r0, ns as int) == last_non_word(r0, start as int),
            decreases ns,
        {
            ns -= 1;
        }
        proof {
            lemma_last_non_word(r0, start as int);
            assert(last_non_word(r0, start as int) + 1 == ns);
            assert(find_char(r0, '[') == Some(start as int));
        }
        if ns > 0 && (rest[ns - 1] as u32) >= 128 {
            proof {
                assert((r0[ns - 1] as u32) >= 128);
            }
            return true;
        }
        proof {
            let k = last_non_word(r0, start as int);
            assert(!(0 <= k < r0.len() && (r0[k] as u32) >= 128));
        }
        let tail_from_start = sub_chars(&rest, start, rest.len());
        proof {
            assert(tail_from_start@ =~= r0.skip(start as int));
            lemma_index_from(tail_from_start@, ']', 0);
        }
        let end = match find_char_from(&tail_from_start, ']', 0) {
            Some(e) => e,
            None => {
                proof {
                    assert(find_char(r0.skip(start as int), ']') is None);
                }
                return false;
            },
        };
        proof {
            assert(find_char(r0.skip(start as int), ']') == Some(end as int));
        }
        let next = sub_chars(&rest, start + end + 1, rest.len());
        proof {
            assert(next@ =~= r0.skip(start + end + 1));
            assert(refs_panic(r0) == refs_panic(next@));
        }
        rest = next;
    }
}

/// The comma-separated pieces of `s`, each trimmed, as `str::split(',')`
/// followed by `trim` gives them; with `drop_empty` the empty ones are left out.
pub open spec fn parts(s: Seq<char>, drop_empty: bool) -> Seq<Seq<char>>
    decreases s.len(),
{
    let i = index_from(s, ',', 0);
    if i >= s.len() {
        let t = trim_seq(s);
        if drop_empty && t.len() == 0 { Seq::empty() } else { seq![t] }
    } else {
        let t = trim_seq(s.take(i));
        let head = if drop_empty && t.len() == 0 { Seq::empty() } else { seq![t] };
        if i >= 0 { head + parts(s.skip(i + 1), drop_empty) } else { head }
    }
}

/// The texts of the strings.
pub open spec fn strs(v: Seq<String>) -> Seq<Seq<char>> {
    v.map_values(|x: String| x@)
}

/// The comma-separated pieces of `v`, trimmed (see `parts`).
fn split_trim(v: &Vec<char>, drop_empty: bool) -> (out: Vec<String>)
    ensures
        strs(out@) == parts(v@, drop_empty),
{
    let mut rest = sub_chars(v, 0, v.len());
    assert(rest@ =~= v@);
    let mut out: Vec<String> = Vec::new();
    assert(strs(out@) + parts(rest@, drop_empty) =~= parts(v@, drop_empty));
    loop
        invariant
            strs(out@) + parts(rest@, drop_empty) == parts(v@, drop_empty),
        decreases rest@.len(),
    {
        let ghost r0 = rest@;
        let ghost out0 = strs(out@);
        proof {
            lemma_index_from(r0, ',', 0);
        }
        match find_char_from(&rest, ',', 0) {
            None => {
                let t = trim_chars(&rest);
                if !(drop_empty && t.len() == 0) {
                    out.push(string_from_chars(&t));
                }
                assert(strs(out@) =~= parts(v@, drop_empty));
                return out;
            },
            Some(i) => {
                let piece = sub_chars(&rest, 0, i);
                let t = trim_chars(&piece);
                proof {
                    assert(piece@ =~= r0.take(i as int));
                }
                if !(drop_empty && t.len() == 0) {
                    out.push(string_from_chars(&t));
                }
                assert(i < rest.len());
                let next = sub_chars(&rest, i + 1, rest.len());
                proof {
                    assert(next@ =~= r0.skip(i + 1));
                    assert(strs(out@) + parts(next@, drop_empty) =~= out0 + parts(r0, drop_empty));
                }
                rest = next;
            },
        }
    }
}

/// What `str::to_lowercase` gives for `s`.
pub uninterp spec fn lowercase_of(s: Seq<char>) -> Seq<char>;

/// Calls `str::to_lowercase`, which maps each character to its Unicode
/// lowercase form. Its result is what the name `lowercase_of` stands for;
/// nothing more is stated of it.
#[verifier::external_body]
fn to_lowercase(s: &str) -> (r: String)
    ensures
        r@ == lowercase_of(s@),
{
    s.to_lowercase()
}

/// The first whitespace position at or after `i`, or the length.
pub open spec fn ws_from(s: Seq<char>, i: int) -> int
    decreases s.len() - i,
{
    if i >= s.len() { s.len() as int } else if is_ws(s[i]) { i } else { ws_from(s, i + 1) }
}

proof fn lemma_ws_from(s: Seq<char>, i: int)
    requires
        0 <= i <= s.len(),
    ensures
        i <= ws_from(s, i) <= s.len(),
    decreases s.len() - i,
{
    if i < s.len() && !is_ws(s[i]) {
        lemma_ws_from(s, i + 1);
    }
}

/// The first whitespace position in `v`, if any.
fn find_ws(v: &Vec<char>) -> (r: Option<usize>)
    ensures
        r matches Some(i) ==> i == ws_from(v@, 0) && i < v@.len(),
        r is None ==> ws_from(v@, 0) == v@.len(),
{
    let mut i: usize = 0;
    proof {
        lemma_ws_from(v@, 0);
    }
    while i < v.len()
        invariant
            i <= v@.len(),
            ws_from(v@, i as int) == ws_from(v@, 0),
        decreases v@.len() - i,
    {
        if char_is_whitespace(v[i]) {
            return Some(i);
        }
        i += 1;
    }
    None
}

/// The lowercase form of the trimmed `v[a..b]`.
fn lower_trimmed(v: &Vec<char>, a: usize, b: usize) -> (r: String)
    requires
        a <= b <= v@.len(),
    ensures
        r@ == lowercase_of(trim_seq(v@.subrange(a as int, b as int))),
{
    let piece = sub_chars(v, a, b);
    let t = trim_chars(&piece);
    let ts = string_from_chars(&t);
    to_lowercase(ts.as_str())
}

/// A statement's name, parameter texts and qubit texts, or the error text.
pub type Statement = Result<(Seq<char>, Seq<Seq<char>>, Seq<Seq<char>>), Seq<char>>;

/// The header of a gate definition with `gate` and a trailing `{` taken off.
pub open spec fn header_text(line: Seq<char>) -> Seq<char> {
    let r1 = if line.len() >= 4 && line.take(4) == "gate"@ { line.skip(4) } else { line };
    trim_seq(trim_end_char(trim_seq(r1), '{'))
}

/// The slices of a gate header lie in order: the first `)` comes after the first `(`.
pub open spec fn gate_header_ok(line: Seq<char>) -> bool {
    let rest = header_text(line);
    match (find_char(rest, '('), find_char(rest, ')')) {
        (Some(o), Some(c)) => o < c,
        _ => true,
    }
}

/// What parsing `gate NAME(p0, p1, ...) q0, q1, ...` gives: the lowercase
/// name, the formal parameter names and the formal qubit names, empty names
/// left out; or the error text.
pub open spec fn gate_header(line: Seq<char>) -> Statement {
    let rest = header_text(line);
    let split: Result<(Seq<char>, Seq<Seq<char>>, Seq<char>), Seq<char>> = match find_char(rest, '(') {
        Some(o) => match find_char(rest, ')') {
            None => Err("unmatched '(' in gate definition"@),
            Some(c) => Ok((lowercase_of(trim_seq(rest.take(o))), parts(rest.subrange(o + 1, c), true), trim_seq(rest.skip(c + 1)))),
        },
        None => {
            let w = ws_from(rest, 0);
            if w >= rest.len() {
                Err("expected qubit arguments in gate definition "@ + quoted(line))
            } else {
                Ok((lowercase_of(trim_seq(rest.take(w))), Seq::empty(), trim_seq(rest.skip(w))))
            }
        },
    };
    match split {
        Err(e) => Err(e),
        Ok((name, params, qpart)) => {
            let qubits = parts(qpart, true);
            if qubits.len() == 0 {
                Err("gate definition "@ + quoted(name) + " declares no qubit arguments"@)
            } else {
                Ok((name, params, qubits))
            }
        },
    }
}

/// Splits `gate NAME(p0, p1, ...) q0, q1, ...` (with an optional trailing
/// `{`) into its lowercase name, formal parameter names and formal qubit names.
pub fn parse_gate_header(line: &str) -> (r: Result<(String, Vec<String>, Vec<String>), String>)
    requires
        gate_header_ok(line@),
    ensures
        match gate_header(line@) {
            Ok((name, params, qubits)) => r matches Ok((n, p, q)) && n@ == name && strs(p@) == params && strs(q@) == qubits,
            Err(e) => r matches Err(m) && m@ == e,
        },
{
    let v = str_chars(line);
    let gate = vec!['g', 'a', 't', 'e'];
    proof {
        reveal_strlit("gate");
        reveal_strlit("");
        assert(gate@ =~= "gate"@);
    }
    let r1 = if starts_with_at(&v, 0, &gate) {
        proof {
            assert(v@.subrange(0, 4) =~= v@.take(4));
        }
        let t = sub_chars(&v, 4, v.len());
        assert(t@ =~= v@.skip(4));
        t
    } else {
        proof {
            if v@.len() >= 4 {
                assert(v@.subrange(0, 4) =~= v@.take(4));
            }
        }
        sub_chars(&v, 0, v.len())
    };
    proof {
        assert(r1@ == (if line@.len() >= 4 && line@.take(4) == "gate"@ { line@.skip(4) } else { line@ }));
    }
    let t1 = trim_chars(&r1);
    let t2 = trim_end_chars(&t1, '{');
    let rest = trim_chars(&t2);
    proof {
        assert(rest@ == header_text(line@));
        lemma_index_from(rest@, '(', 0);
        lemma_index_from(rest@, ')', 0);
    }
    let (name, params, qpart) = match find_char_from(&rest, '(', 0) {
        Some(open) => {
            let close = match find_char_from(&rest, ')', 0) {
                Some(c) => c,
                None => {
                    let mut m = String::new();
                    push_str(&mut m, "unmatched '(' in gate definition");
                    return Err(m);
                },
            };
            let rl = rest.len();
            assert(close < rl);
            let name = lower_trimmed(&rest, 0, open);
            proof {
                assert(rest@.subrange(0, open as int) =~= rest@.take(open as int));
            }
            let inner = sub_chars(&rest, open + 1, close);
            let params = split_trim(&inner, true);
            let after = sub_chars(&rest, close + 1, rest.len());
            assert(after@ =~= rest@.skip(close + 1));
            (name, params, trim_chars(&after))
        },
        None => {
            let split = match find_ws(&rest) {
                Some(w) => w,
                None => {
                    return Err(quoted_message("expected qubit arguments in gate definition ", &v, ""));
                },
            };
            let name = lower_trimmed(&rest, 0, split);
            proof {
                assert(rest@.subrange(0, split as int) =~= rest@.take(split as int));
            }
            let after = sub_chars(&rest, split, rest.len());
            assert(after@ =~= rest@.skip(split as int));
            let no_params: Vec<String> = Vec::new();
            assert(strs(no_params@) =~= Seq::<Seq<char>>::empty());
            (name, no_params, trim_chars(&after))
        },
    };
    let qubits = split_trim(&qpart, true);
    if qubits.len() == 0 {
        let nc = str_chars(name.as_str());
        return Err(quoted_message("gate definition ", &nc, " declares no qubit arguments"));
    }
    Ok((name, params, qubits))
}

/// One statement inside a `gate` body, in terms of the definition's own
/// formal parameter and qubit names.
#[derive(Debug, Clone)]
pub struct BodyOp {
    pub name: String,
    pub param_exprs: Vec<String>,
    pub qubit_formals: Vec<String>,
}

/// A user-defined `gate NAME(params) qargs { body }` template.
#[derive(Debug, Clone)]
pub struct GateDef {
    pub param_formals: Vec<String>,
    pub qubit_formals: Vec<String>,
    pub body: Vec<BodyOp>,
}

/// A gate body statement without trailing `;`s, trimmed.
pub open spec fn body_text(line: Seq<char>) -> Seq<char> {
    trim_seq(trim_end_char(line, ';'))
}

/// The slices of a body statement lie in order: the first `)` comes after the first `(`.
pub open spec fn body_op_ok(line: Seq<char>) -> bool {
    let t = body_text(line);
    match (find_char(t, '('), find_char(t, ')')) {
        (Some(o), Some(c)) => o < c,
        _ => true,
    }
}

/// What parsing a gate body statement `name(e0, e1, ...) q0, q1, ...;`
/// gives: the lowercase name, the parameter expressions as raw trimmed text
/// (empty ones kept) and the formal qubit names (empty ones left out); or
/// the error text.
pub open spec fn body_op(line: Seq<char>) -> Statement {
    let t = body_text(line);
    if t.len() == 0 {
        Err("empty statement in gate body"@)
    } else {
        let split: Result<(Seq<char>, Seq<Seq<char>>, Seq<char>), Seq<char>> = match find_char(t, '(') {
            Some(o) => match find_char(t, ')') {
                None => Err("unmatched '(' in gate body statement"@),
                Some(c) => Ok((lowercase_of(trim_seq(t.take(o))), parts(t.subrange(o + 1, c), false), trim_seq(t.skip(c + 1)))),
            },
            None => {
                let w = ws_from(t, 0);
                if w >= t.len() {
                    Err("expected a qubit argument after gate name in "@ + quoted(t))
                } else {
                    Ok((lowercase_of(trim_seq(t.take(w))), Seq::empty(), trim_seq(t.skip(w))))
                }
            },
        };
        match split {
            Err(e) => Err(e),
            Ok((name, params, rest)) => {
                let qubits = parts(rest, true);
                if qubits.len() == 0 {
                    Err("no qubit operand found in gate body statement for "@ + quoted(name))
                } else {
                    Ok((name, params, qubits))
                }
            },
        }
    }
}

/// Parses one statement inside a `gate` body into a `BodyOp`; parameter
/// expressions stay raw text, to be resolved at each call site.
pub fn parse_body_op(line: &str) -> (r: Result<BodyOp, String>)
    requires
        body_op_ok(line@),
    ensures
        match body_op(line@) {
            Ok((name, params, qubits)) => r matches Ok(op) && op.name@ == name && strs(op.param_exprs@) == params
                && strs(op.qubit_formals@) == qubits,
            Err(e) => r matches Err(m) && m@ == e,
        },
{
    let v = str_chars(line);
    let u = trim_end_chars(&v, ';');
    let t = trim_chars(&u);
    proof {
        reveal_strlit("");
        assert(t@ == body_text(line@));
        lemma_index_from(t@, '(', 0);
        lemma_index_from(t@, ')', 0);
    }
    if t.len() == 0 {
        let mut m = String::new();
        push_str(&mut m, "empty statement in gate body");
        return Err(m);
    }
    let (name, param_exprs, rest) = match find_char_from(&t, '(', 0) {
        Some(open) => {
            let close = match find_char_from(&t, ')', 0) {
                Some(c) => c,
                None => {
                    let mut m = String::new();
                    push_str(&mut m, "unmatched '(' in gate body statement");
                    return Err(m);
                },
            };
            let name = lower_trimmed(&t, 0, open);
            proof {
                assert(t@.subrange(0, open as int) =~= t@.take(open as int));
            }
            let inner = sub_chars(&t, open + 1, close);
            let params = split_trim(&inner, false);
            let after = sub_chars(&t, close + 1, t.len());
            assert(after@ =~= t@.skip(close + 1));
            (name, params, trim_chars(&after))
        },
        None => {
            let split = match find_ws(&t) {
                Some(w) => w,
                None => {
                    return Err(quoted_message("expected a qubit argument after gate name in ", &t, ""));
                },
            };
            let name = lower_trimmed(&t, 0, split);
            proof {
                assert(t@.subrange(0, split as int) =~= t@.take(split as int));
            }
            let after = sub_chars(&t, split, t.len());
            assert(after@ =~= t@.skip(split as int));
            let no_params: Vec<String> = Vec::new();
            assert(strs(no_params@) =~= Seq::<Seq<char>>::empty());
            (name, no_params, trim_chars(&after))
        },
    };
    let qubit_formals = split_trim(&rest, true);
    if qubit_formals.len() == 0 {
        let nc = str_chars(name.as_str());
        return Err(quoted_message("no qubit operand found in gate body statement for ", &nc, ""));
    }
    Ok(BodyOp { name, param_exprs, qubit_formals })
}

/// Where `f` first occurs among `fs`, if at all.
pub open spec fn position_of(fs: Seq<Seq<char>>, f: Seq<char>, i: int) -> int
    decreases fs.len() - i,
{
    if i >= fs.len() { fs.len() as int } else if fs[i] == f { i } else { position_of(fs, f, i + 1) }
}

proof fn lemma_position_of(fs: Seq<Seq<char>>, f: Seq<char>, i: int)
    requires
        0 <= i <= fs.len(),
    ensures
        i <= position_of(fs, f, i) <= fs.len(),
        position_of(fs, f, i) < fs.len() ==> fs[position_of(fs, f, i)] == f,
    decreases fs.len() - i,
{
    if i < fs.len() && fs[i] != f {
        lemma_position_of(fs, f, i + 1);
    }
}

/// A body's formal qubits resolve: each known formal's position indexes
/// the call's actual qubits.
pub open spec fn resolvable(formals: Seq<Seq<char>>, body: Seq<Seq<char>>, actual_len: int) -> bool {
    forall|j: int| 0 <= j < body.len() ==> {
        let p = position_of(formals, #[trigger] body[j], 0);
        p < formals.len() ==> p < actual_len
    }
}

/// The actual qubits of a body statement's formal qubits, matched by
/// position against the definition's formal qubit list; the first unknown
/// formal gives an error naming it.
pub open spec fn resolved(formals: Seq<Seq<char>>, body: Seq<Seq<char>>, actual: Seq<usize>) -> Result<Seq<usize>, Seq<char>>
    decreases body.len(),
{
    if body.len() == 0 {
        Ok(Seq::empty())
    } else {
        match resolved(formals, body.drop_last(), actual) {
            Err(e) => Err(e),
            Ok(prev) => {
                let p = position_of(formals, body.last(), 0);
                if p < formals.len() {
                    Ok(prev.push(actual[p]))
                } else {
                    Err("gate body references unknown qubit "@ + quoted(body.last()))
                }
            },
        }
    }
}

proof fn lemma_resolved_err(formals: Seq<Seq<char>>, body: Seq<Seq<char>>, actual: Seq<usize>, k: int, m: int)
    requires
        0 <= k <= m <= body.len(),
        resolved(formals, body.take(k), actual) is Err,
    ensures
        resolved(formals, body.take(m), actual) == resolved(formals, body.take(k), actual),
    decreases m - k,
{
    if m > k {
        lemma_resolved_err(formals, body, actual, k, m - 1);
        assert(body.take(m).drop_last() =~= body.take(m - 1));
    }
}

/// Maps a body statement's formal qubit names to actual circuit indices via
/// the definition's formal qubit list and a call's actual qubits (matched by
/// position).
pub fn resolve_body_qubits(def: &GateDef, body_qubit_formals: &[String], actual_qubits: &[usize]) -> (r: Result<Vec<usize>, String>)
    requires
        resolvable(strs(def.qubit_formals@), strs(body_qubit_formals@), actual_qubits@.len() as int),
    ensures
        match resolved(strs(def.qubit_formals@), strs(body_qubit_formals@), actual_qubits@) {
            Ok(qs) => r matches Ok(v) && v@ == qs,
            Err(e) => r matches Err(m) && m@ == e,
        },
{
    let ghost formals = strs(def.qubit_formals@);
    let ghost body = strs(body_qubit_formals@);
    let mut out: Vec<usize> = Vec::new();
    let mut j: usize = 0;
    assert(body.take(0) =~= Seq::<Seq<char>>::empty());
    while j < body_qubit_formals.len()
        invariant
            j <= body_qubit_formals@.len(),
            formals == strs(def.qubit_formals@),
            body == strs(body_qubit_formals@),
            resolvable(formals, body, actual_qubits@.len() as int),
            resolved(formals, body.take(j as int), actual_qubits@) == Ok::<Seq<usize>, Seq<char>>(out@),
        decreases body_qubit_formals@.len() - j,
    {
        let formal = &body_qubit_formals[j];
        proof {
            assert(body.take(j + 1).drop_last() =~= body.take(j as int));
            assert(body.take(j + 1).last() == formal@);
            assert(body[j as int] == formal@);
            lemma_position_of(formals, formal@, 0);
        }
        let mut k: usize = 0;
        while k < def.qubit_formals.len() && !(def.qubit_formals[k] == *formal)
            invariant
                k <= def.qubit_formals@.len(),
                formals == strs(def.qubit_formals@),
                position_of(formals, formal@, k as int) == position_of(formals, formal@, 0),
            decreases def.qubit_formals@.len() - k,
        {
            proof {
                assert(formals[k as int] == def.qubit_formals@[k as int]@);
            }
            k += 1;
        }
        if k == def.qubit_formals.len() {
            let m = quoted_message("gate body references unknown qubit ", &str_chars(formal.as_str()), "");
            proof {
                reveal_strlit("");
                assert(resolved(formals, body.take(j + 1), actual_qubits@) == Err::<Seq<usize>, Seq<char>>(m@));
                lemma_resolved_err(formals, body, actual_qubits@, j + 1, body.len() as int);
                assert(body.take(body.len() as int) =~= body);
            }
            return Err(m);
        }
        proof {
            assert(formals[k as int] == def.qubit_formals@[k as int]@);
            reveal_strlit("");
        }
        out.push(actual_qubits[k]);
        j += 1;
    }
    proof {
        assert(body.take(j as int) =~= body);
    }
    Ok(out)
}

/// What `format!("{:?}", s)` writes for a string: the text quoted, with
/// special characters escaped.
pub uninterp spec fn debug_text(s: Seq<char>) -> Seq<char>;

/// Formats `s` with `Debug`: the string in double quotes with its special
/// characters escaped. The result is what the name `debug_text` stands for;
/// nothing more is stated of it.
#[verifier::external_body]
fn debug_str(s: &str) -> (r: String)
    ensures
        r@ == debug_text(s@),
{
    format!("{:?}", s)
}

/// The message of a load error on line `line_no` (counted from 0):
/// `line <n>: <reason> (in "<line>")` with the line counted from 1.
pub fn parse_error(line_no: usize, line: &str, reason: &str) -> (m: String)
    requires
        line_no < usize::MAX,
    ensures
        m@ == "line "@ + decimal((line_no + 1) as nat) + ": "@ + reason@ + " (in "@ + debug_text(line@) + ")"@,
{
    let mut m = String::new();
    push_str(&mut m, "line ");
    let n = usize_to_string(line_no + 1);
    push_str(&mut m, n.as_str());
    push_str(&mut m, ": ");
    push_str(&mut m, reason);
    push_str(&mut m, " (in ");
    let d = debug_str(line);
    push_str(&mut m, d.as_str());
    push_str(&mut m, ")");
    m
}

} // verus!
