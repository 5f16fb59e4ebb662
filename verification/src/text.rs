//! Character-level helpers shared by the parser and the emitter: prefix
//! tests, first-occurrence search, splitting on spaces, label escaping, and
//! decimal rendering of counters.

use vstd::prelude::*;
use vstd::string::{StrSliceExecFns, StringExecFns};

verus! {

/// A sequence of characters begins with the given prefix.
pub open spec fn spec_starts_with(s: Seq<char>, p: Seq<char>) -> bool {
    p.len() <= s.len() && s.subrange(0, p.len() as int) == p
}

/// Whether `s` begins with `p`, decided character by character.
pub fn str_starts_with(s: &str, p: &str) -> (r: bool)
    ensures
        r == spec_starts_with(s@, p@),
{
    let sn = s.unicode_len();
    let pn = p.unicode_len();
    if pn > sn {
        return false;
    }
    let mut j: usize = 0;
    while j < pn
        invariant
            j <= pn,
            pn == p@.len(),
            sn == s@.len(),
            pn <= sn,
            forall|k: int| 0 <= k < j ==> s@[k] == p@[k],
        decreases pn - j,
    {
        if s.get_char(j) != p.get_char(j) {
            proof {
                assert(s@.subrange(0, pn as int)[j as int] == s@[j as int]);
            }
            return false;
        }
        j = j + 1;
    }
    proof {
        assert(s@.subrange(0, pn as int) =~= p@);
    }
    true
}

/// Whether two strings hold the same characters.
pub fn str_eq(a: &str, b: &str) -> (r: bool)
    ensures
        r == (a@ == b@),
{
    let an = a.unicode_len();
    let bn = b.unicode_len();
    if an != bn {
        return false;
    }
    let mut j: usize = 0;
    while j < an
        invariant
            j <= an,
            an == a@.len(),
            bn == b@.len(),
            an == bn,
            forall|k: int| 0 <= k < j ==> a@[k] == b@[k],
        decreases an - j,
    {
        if a.get_char(j) != b.get_char(j) {
            return false;
        }
        j = j + 1;
    }
    proof {
        assert(a@ =~= b@);
    }
    true
}

/// Index of the first occurrence of `c` in `s`; negative when `c` is absent.
pub open spec fn find_char(s: Seq<char>, c: char) -> int
    decreases s.len(),
{
    if s.len() == 0 {
        -1
    } else if s[0] == c {
        0
    } else if find_char(s.drop_first(), c) == -1 {
        -1
    } else {
        1 + find_char(s.drop_first(), c)
    }
}

/// A negative result means `c` does not occur; otherwise the result is in
/// range, hits `c`, and no earlier position does.
pub proof fn lemma_find_char(s: Seq<char>, c: char)
    ensures
        find_char(s, c) == -1 ==> forall|i: int| 0 <= i < s.len() ==> s[i] != c,
        find_char(s, c) != -1 ==> 0 <= find_char(s, c) < s.len() && s[find_char(s, c)] == c
            && (forall|i: int| 0 <= i < find_char(s, c) ==> s[i] != c),
    decreases s.len(),
{
    if s.len() == 0 {
    } else if s[0] == c {
    } else {
        lemma_find_char(s.drop_first(), c);
        assert(forall|i: int| 1 <= i < s.len() ==> s.drop_first()[i - 1] == s[i]);
    }
}

/// First position of `c` in `s`, scanning left to right.
pub fn find_char_in(s: &str, c: char) -> (r: Option<usize>)
    ensures
        match r {
            Some(k) => k < s@.len() && find_char(s@, c) == k as int,
            None => find_char(s@, c) == -1,
        },
{
    let n = s.unicode_len();
    let mut j: usize = 0;
    while j < n
        invariant
            j <= n,
            n == s@.len(),
            forall|k: int| 0 <= k < j ==> s@[k] != c,
        decreases n - j,
    {
        if s.get_char(j) == c {
            proof {
                lemma_find_char(s@, c);
            }
            return Some(j);
        }
        j = j + 1;
    }
    proof {
        lemma_find_char(s@, c);
    }
    None
}

/// Fragments of `s` between single space characters, with empty fragments
/// dropped, in left-to-right order.
pub open spec fn split_names(s: Seq<char>) -> Seq<Seq<char>>
    decreases s.len(),
        via split_names_decreases
{
    let k = find_char(s, ' ');
    if k == -1 {
        if s.len() == 0 {
            Seq::empty()
        } else {
            seq![s]
        }
    } else {
        let head = s.subrange(0, k);
        let rest = split_names(s.subrange(k + 1, s.len() as int));
        if head.len() == 0 {
            rest
        } else {
            seq![head] + rest
        }
    }
}

#[via_fn]
proof fn split_names_decreases(s: Seq<char>) {
    lemma_find_char(s, ' ');
}

/// Splits `s` on single spaces and keeps the non-empty fragments.
pub fn split_names_exec(s: &str) -> (r: Vec<String>)
    ensures
        r.deep_view() == split_names(s@),
{
    let mut out: Vec<String> = Vec::new();
    let mut rest: String = s.to_owned();
    loop
        invariant_except_break
            out.deep_view() + split_names(rest@) == split_names(s@),
        ensures
            out.deep_view() == split_names(s@),
        decreases rest@.len(),
    {
        let n = rest.as_str().unicode_len();
        let ghost prev = out.deep_view();
        let ghost rv = rest@;
        match find_char_in(rest.as_str(), ' ') {
            None => {
                if n > 0 {
                    out.push(rest);
                    proof {
                        assert(out.deep_view() =~= prev.push(rv));
                        assert(split_names(rv) =~= seq![rv]);
                        assert(prev.push(rv) =~= prev + seq![rv]);
                    }
                } else {
                    proof {
                        assert(split_names(rv) =~= Seq::<Seq<char>>::empty());
                        assert(prev + split_names(rv) =~= prev);
                    }
                }
                break;
            },
            Some(k) => {
                let head = rest.as_str().substring_char(0, k).to_owned();
                let tail = rest.as_str().substring_char(k + 1, n).to_owned();
                if !head.as_str().is_empty() {
                    out.push(head);
                    proof {
                        assert(out.deep_view() =~= prev.push(rv.subrange(0, k as int)));
                        assert(prev.push(rv.subrange(0, k as int)) + split_names(tail@) =~= prev
                            + (seq![rv.subrange(0, k as int)] + split_names(tail@)));
                    }
                }
                rest = tail;
            },
        }
    }
    out
}

/// What escaping does to one character: a double quote becomes a
/// backslash-quote pair; every other character is kept as it is.
pub open spec fn escape_char(c: char) -> Seq<char> {
    if c == '"' {
        seq!['\\', '"']
    } else {
        seq![c]
    }
}

/// The escaped form of a name: every literal double quote replaced by the
/// two-character sequence backslash, quote.
pub open spec fn escape_spec(s: Seq<char>) -> Seq<char>
    decreases s.len(),
{
    if s.len() == 0 {
        Seq::empty()
    } else {
        escape_char(s[0]) + escape_spec(s.drop_first())
    }
}

/// Escaping distributes over concatenation.
pub proof fn lemma_escape_append(a: Seq<char>, b: Seq<char>)
    ensures
        escape_spec(a + b) == escape_spec(a) + escape_spec(b),
    decreases a.len(),
{
    if a.len() == 0 {
        assert(a + b =~= b);
        assert(escape_spec(a) + escape_spec(b) =~= escape_spec(b));
    } else {
        assert((a + b).drop_first() =~= a.drop_first() + b);
        assert((a + b)[0] == a[0]);
        assert((a + b).len() != 0);
        lemma_escape_append(a.drop_first(), b);
        assert(escape_char(a[0]) + (escape_spec(a.drop_first()) + escape_spec(b)) =~= (escape_char(
            a[0],
        ) + escape_spec(a.drop_first())) + escape_spec(b));
    }
}

/// Law: a name without a double quote is unchanged by escaping.
pub proof fn lemma_escape_no_quote(s: Seq<char>)
    requires
        forall|i: int| 0 <= i < s.len() ==> s[i] != '"',
    ensures
        escape_spec(s) == s,
    decreases s.len(),
{
    if s.len() == 0 {
        assert(escape_spec(s) =~= s);
    } else {
        assert(forall|i: int| 0 <= i < s.drop_first().len() ==> s.drop_first()[i] == s[i + 1]);
        lemma_escape_no_quote(s.drop_first());
        assert(escape_char(s[0]) =~= seq![s[0]]);
        assert(seq![s[0]] + s.drop_first() =~= s);
    }
}

/// Law: a name whose only double quote stands at position `k` is escaped by
/// replacing exactly that character with the backslash-quote pair, leaving
/// everything around it unchanged.
pub proof fn lemma_escape_one_quote(s: Seq<char>, k: int)
    requires
        0 <= k < s.len(),
        s[k] == '"',
        forall|i: int| 0 <= i < s.len() && i != k ==> s[i] != '"',
    ensures
        escape_spec(s) == s.subrange(0, k) + seq!['\\', '"'] + s.subrange(k + 1, s.len() as int),
    decreases s.len(),
{
    if k == 0 {
        assert(forall|i: int|
            0 <= i < s.drop_first().len() ==> s.drop_first()[i] == s[i + 1] && s[i + 1] != '"');
        lemma_escape_no_quote(s.drop_first());
        assert(s.subrange(0, 0) =~= Seq::<char>::empty());
        assert(s.subrange(1, s.len() as int) =~= s.drop_first());
        assert(escape_char(s[0]) == seq!['\\', '"']);
        assert(Seq::<char>::empty() + seq!['\\', '"'] =~= seq!['\\', '"']);
        assert(escape_spec(s) =~= s.subrange(0, 0) + seq!['\\', '"'] + s.subrange(
            1,
            s.len() as int,
        ));
    } else {
        let d = s.drop_first();
        assert(forall|i: int| 0 <= i < d.len() ==> d[i] == s[i + 1]);
        lemma_escape_one_quote(d, k - 1);
        assert(escape_char(s[0]) =~= seq![s[0]]);
        assert(d.subrange(0, k - 1) =~= s.subrange(1, k));
        assert(d.subrange(k, d.len() as int) =~= s.subrange(k + 1, s.len() as int));
        assert(seq![s[0]] + (s.subrange(1, k) + seq!['\\', '"'] + s.subrange(k + 1, s.len() as int))
            =~= s.subrange(0, k) + seq!['\\', '"'] + s.subrange(k + 1, s.len() as int));
    }
}

/// Replaces every double quote in `s` with a backslash-quote pair.
pub fn escape(s: &str) -> (r: String)
    ensures
        r@ == escape_spec(s@),
{
    let n = s.unicode_len();
    let mut r = String::new();
    let mut i: usize = 0;
    while i < n
        invariant
            i <= n,
            n == s@.len(),
            r@ == escape_spec(s@.subrange(0, i as int)),
        decreases n - i,
    {
        let ghost prev = r@;
        let c = s.get_char(i);
        if c == '"' {
            r.append("\\\"");
            proof {
                reveal_strlit("\\\"");
                assert("\\\""@ =~= seq!['\\', '"']);
            }
        } else {
            let piece = s.substring_char(i, i + 1);
            r.append(piece);
            proof {
                assert(piece@ =~= seq![s@[i as int]]);
            }
        }
        proof {
            let pre = s@.subrange(0, i as int);
            let one = seq![s@[i as int]];
            lemma_escape_append(pre, one);
            assert(pre + one =~= s@.subrange(0, i as int + 1));
            assert(one.drop_first() =~= Seq::<char>::empty());
            assert(escape_spec(Seq::<char>::empty()) == Seq::<char>::empty());
            assert(escape_spec(one) == escape_char(s@[i as int]) + escape_spec(one.drop_first()));
            assert(escape_char(s@[i as int]) + Seq::<char>::empty() =~= escape_char(s@[i as int]));
            assert(r@ =~= prev + escape_char(s@[i as int]));
        }
        i = i + 1;
    }
    proof {
        assert(s@.subrange(0, n as int) =~= s@);
    }
    r
}

/// Decimal digit for a value below ten.
pub open spec fn digit_char(n: nat) -> char {
    if n == 0 {
        '0'
    } else if n == 1 {
        '1'
    } else if n == 2 {
        '2'
    } else if n == 3 {
        '3'
    } else if n == 4 {
        '4'
    } else if n == 5 {
        '5'
    } else if n == 6 {
        '6'
    } else if n == 7 {
        '7'
    } else if n == 8 {
        '8'
    } else {
        '9'
    }
}

/// Decimal rendering of a natural number, most significant digit first,
/// without leading zeroes (zero itself is the single digit `0`).
pub open spec fn dec_digits(n: nat) -> Seq<char>
    decreases n,
{
    if n < 10 {
        seq![digit_char(n)]
    } else {
        dec_digits(n / 10).push(digit_char(n % 10))
    }
}

fn digit_string(n: u128) -> (r: String)
    requires
        n < 10,
    ensures
        r@ == seq![digit_char(n as nat)],
{
    proof {
        reveal_strlit("0");
        reveal_strlit("1");
        reveal_strlit("2");
        reveal_strlit("3");
        reveal_strlit("4");
        reveal_strlit("5");
        reveal_strlit("6");
        reveal_strlit("7");
        reveal_strlit("8");
        reveal_strlit("9");
        assert("0"@ =~= seq!['0']);
        assert("1"@ =~= seq!['1']);
        assert("2"@ =~= seq!['2']);
        assert("3"@ =~= seq!['3']);
        assert("4"@ =~= seq!['4']);
        assert("5"@ =~= seq!['5']);
        assert("6"@ =~= seq!['6']);
        assert("7"@ =~= seq!['7']);
        assert("8"@ =~= seq!['8']);
        assert("9"@ =~= seq!['9']);
    }
    if n == 0 {
        String::from_str("0")
    } else if n == 1 {
        String::from_str("1")
    } else if n == 2 {
        String::from_str("2")
    } else if n == 3 {
        String::from_str("3")
    } else if n == 4 {
        String::from_str("4")
    } else if n == 5 {
        String::from_str("5")
    } else if n == 6 {
        String::from_str("6")
    } else if n == 7 {
        String::from_str("7")
    } else if n == 8 {
        String::from_str("8")
    } else {
        String::from_str("9")
    }
}

/// The decimal text of `n`.
pub fn dec_string(n: u128) -> (r: String)
    ensures
        r@ == dec_digits(n as nat),
    decreases n,
{
    if n < 10 {
        digit_string(n)
    } else {
        let mut r = dec_string(n / 10);
        let d = digit_string(n % 10);
        r.append(d.as_str());
        proof {
            assert(dec_digits((n / 10) as nat) + seq![digit_char((n % 10) as nat)] =~= dec_digits(
                (n / 10) as nat,
            ).push(digit_char((n % 10) as nat)));
        }
        r
    }
}

} // verus!
