//! Text: decimal numerals, joining, and the order of strings.

use vstd::prelude::*;
use vstd::string::*;
use vstd::utf8::encode_utf8;

verus! {

/// The decimal digit with the value `d`.
pub open spec fn digit(d: nat) -> char {
    (48 + d) as char
}

/// The decimal numeral of `n`, without leading zeros.
pub open spec fn decimal(n: nat) -> Seq<char>
    decreases n,
{
    if n < 10 {
        seq![digit(n)]
    } else {
        decimal(n / 10).push(digit(n % 10))
    }
}

/// Whether `c` is one of the ten decimal digits.
pub open spec fn is_digit(c: char) -> bool {
    '0' <= c <= '9'
}

fn digit_text(d: u64) -> (r: &'static str)
    requires
        d < 10,
    ensures
        r@ == seq![digit(d as nat)],
{
    proof {
        reveal_strlit("0");
        reveal_strlit("1");
        reveal_strlit("2");
        reveal_strlit("3");
        reveal_strlit("4");
        reveal_strlit("5");
        reveal_strlit("6");
        reveal_strlit("7");
        reveal_strlit("8");
        reveal_strlit("9");
    }
    if d == 0 {
        "0"
    } else if d == 1 {
        "1"
    } else if d == 2 {
        "2"
    } else if d == 3 {
        "3"
    } else if d == 4 {
        "4"
    } else if d == 5 {
        "5"
    } else if d == 6 {
        "6"
    } else if d == 7 {
        "7"
    } else if d == 8 {
        "8"
    } else {
        "9"
    }
}

/// Writes `n` in decimal.
pub fn decimal_text(n: u64) -> (r: String)
    ensures
        r@ == decimal(n as nat),
    decreases n,
{
    if n < 10 {
        digit_text(n).to_string()
    } else {
        let mut s = decimal_text(n / 10);
        s.append(digit_text(n % 10));
        assert(s@ =~= decimal((n / 10) as nat).push(digit((n % 10) as nat)));
        s
    }
}

/// A numeral is not empty and holds digits only.
pub proof fn lemma_decimal_digits(n: nat)
    ensures
        decimal(n).len() > 0,
        forall|i: int| 0 <= i < decimal(n).len() ==> is_digit(#[trigger] decimal(n)[i]),
    decreases n,
{
    if n >= 10 {
        lemma_decimal_digits(n / 10);
    }
}

/// Different numbers have different numerals.
pub proof fn lemma_decimal_injective(a: nat, b: nat)
    requires
        decimal(a) == decimal(b),
    ensures
        a == b,
    decreases a,
{
    lemma_decimal_digits(a / 10);
    lemma_decimal_digits(b / 10);
    if a >= 10 && b >= 10 {
        let da = decimal(a / 10);
        let db = decimal(b / 10);
        assert(decimal(a).drop_last() =~= da);
        assert(decimal(b).drop_last() =~= db);
        assert(decimal(a).last() == digit(a % 10));
        assert(decimal(b).last() == digit(b % 10));
        assert(a % 10 == b % 10);
        lemma_decimal_injective(a / 10, b / 10);
    } else if a < 10 && b < 10 {
        assert(decimal(a)[0] == digit(a));
        assert(decimal(b)[0] == digit(b));
    } else if a < 10 {
        assert(decimal(a).len() == 1);
        assert(decimal(b).len() > 1);
    } else {
        assert(decimal(b).len() == 1);
        assert(decimal(a).len() > 1);
    }
}

/// A numeral ends where the first character follows that is no digit.
pub proof fn lemma_numeral_ends(a: nat, b: nat, x: Seq<char>, y: Seq<char>)
    requires
        decimal(a) + x == decimal(b) + y,
        x.len() > 0,
        y.len() > 0,
        !is_digit(x[0]),
        !is_digit(y[0]),
    ensures
        a == b,
        x == y,
{
    let p = decimal(a);
    let q = decimal(b);
    let all = p + x;
    lemma_decimal_digits(a);
    lemma_decimal_digits(b);
    if p.len() < q.len() {
        assert(all[p.len() as int] == x[0]);
        assert(all[p.len() as int] == q[p.len() as int]);
    } else if q.len() < p.len() {
        assert(all[q.len() as int] == y[0]);
        assert(all[q.len() as int] == p[q.len() as int]);
    }
    assert(p =~= all.take(p.len() as int));
    assert(q =~= all.take(q.len() as int));
    assert(x =~= all.skip(p.len() as int));
    assert(y =~= all.skip(q.len() as int));
    lemma_decimal_injective(a, b);
}

/// Joins two texts.
pub fn join2(a: &str, b: &str) -> (r: String)
    ensures
        r@ == a@ + b@,
{
    let mut s = a.to_string();
    s.append(b);
    s
}

/// Joins three texts.
pub fn join3(a: &str, b: &str, c: &str) -> (r: String)
    ensures
        r@ == a@ + b@ + c@,
{
    let mut s = join2(a, b);
    s.append(c);
    s
}

/// Joins five texts.
pub fn join5(a: &str, b: &str, c: &str, d: &str, e: &str) -> (r: String)
    ensures
        r@ == a@ + b@ + c@ + d@ + e@,
{
    let mut s = join3(a, b, c);
    s.append(d);
    s.append(e);
    s
}

/// Whether two texts are the same.
pub fn same_text(a: &str, b: &str) -> (r: bool)
    ensures
        r == (a@ == b@),
{
    a.to_string() == b.to_string()
}

/// What strings hold.
pub open spec fn texts(strings: Seq<String>) -> Seq<Seq<char>> {
    strings.map_values(|s: String| s@)
}

/// The first text, from the place `i` on, that stood before.
pub open spec fn first_repeated(all: Seq<Seq<char>>, i: int) -> Option<Seq<char>>
    decreases all.len() - i,
{
    if i >= all.len() {
        None
    } else if all.take(i).contains(all[i]) {
        Some(all[i])
    } else {
        first_repeated(all, i + 1)
    }
}

/// What an optional string holds.
pub open spec fn optional_text(s: Option<String>) -> Option<Seq<char>> {
    match s {
        Some(s) => Some(s@),
        None => None,
    }
}

/// A copy of an optional string.
pub fn copy_optional(s: &Option<String>) -> (r: Option<String>)
    ensures
        optional_text(r) == optional_text(*s),
{
    match s {
        Some(s) => Some(s.clone()),
        None => None,
    }
}

/// The first place at which two byte sequences part: `k` holds the length of what they
/// share.
pub open spec fn parts_at(a: Seq<u8>, b: Seq<u8>, k: int) -> bool {
    &&& 0 <= k <= a.len()
    &&& k <= b.len()
    &&& forall|i: int| 0 <= i < k ==> a[i] == b[i]
    &&& (k == a.len() || k == b.len() || a[k] != b[k])
}

/// Whether the bytes `a` come before the bytes `b` in lexicographic order.
pub open spec fn bytes_before(a: Seq<u8>, b: Seq<u8>) -> bool {
    exists|k: int|
        #![trigger parts_at(a, b, k)]
        parts_at(a, b, k) && k < b.len() && (k == a.len() || a[k] < b[k])
}

/// Whether the text `a` comes before the text `b`: strings are ordered
/// lexicographically by their UTF-8 bytes.
pub open spec fn before(a: Seq<char>, b: Seq<char>) -> bool {
    bytes_before(encode_utf8(a), encode_utf8(b))
}

/// Two byte sequences part in one place only.
proof fn lemma_parts_unique(a: Seq<u8>, b: Seq<u8>, j: int, k: int)
    requires
        parts_at(a, b, j),
        parts_at(a, b, k),
    ensures
        j == k,
{
    if j < k {
        assert(a[j] == b[j]);
    } else if k < j {
        assert(a[k] == b[k]);
    }
}

proof fn lemma_parts_exist(a: Seq<u8>, b: Seq<u8>, n: int) -> (k: int)
    requires
        0 <= n <= a.len(),
        n <= b.len(),
        forall|i: int| 0 <= i < n ==> a[i] == b[i],
    ensures
        parts_at(a, b, k),
    decreases a.len() - n,
{
    if n == a.len() || n == b.len() || a[n] != b[n] {
        n
    } else {
        lemma_parts_exist(a, b, n + 1)
    }
}

/// The order of texts is irreflexive, total and transitive.
pub proof fn lemma_before_irreflexive(a: Seq<char>)
    ensures
        !before(a, a),
{
    let x = encode_utf8(a);
    assert(parts_at(x, x, x.len() as int));
    assert forall|k: int| #![trigger parts_at(x, x, k)] parts_at(x, x, k) implies !(k < x.len()
        && (k == x.len() || x[k] < x[k])) by {
        lemma_parts_unique(x, x, k, x.len() as int);
    }
}

/// Of two texts, one comes first or they are the same.
pub proof fn lemma_before_total(a: Seq<char>, b: Seq<char>)
    ensures
        before(a, b) || before(b, a) || a == b,
{
    let x = encode_utf8(a);
    let y = encode_utf8(b);
    let k = lemma_parts_exist(x, y, 0);
    assert(parts_at(y, x, k));
    if k == x.len() && k == y.len() {
        assert(x =~= y);
        vstd::utf8::encode_utf8_decode_utf8(a);
        vstd::utf8::encode_utf8_decode_utf8(b);
    }
}

/// A text that comes before a second comes before every third that the second precedes.
pub proof fn lemma_before_transitive(a: Seq<char>, b: Seq<char>, c: Seq<char>)
    requires
        before(a, b),
        before(b, c),
    ensures
        before(a, c),
{
    let x = encode_utf8(a);
    let y = encode_utf8(b);
    let z = encode_utf8(c);
    let j = choose|k: int|
        #![trigger parts_at(x, y, k)]
        parts_at(x, y, k) && k < y.len() && (k == x.len() || x[k] < y[k]);
    let l = choose|k: int|
        #![trigger parts_at(y, z, k)]
        parts_at(y, z, k) && k < z.len() && (k == y.len() || y[k] < z[k]);
    let m = if j <= l { j } else { l };
    assert(parts_at(x, z, m));
}

/// Whether `a` comes before `b`.
pub fn comes_before(a: &str, b: &str) -> (r: bool)
    ensures
        r == before(a@, b@),
{
    let x = a.as_bytes();
    let y = b.as_bytes();
    let mut k: usize = 0;
    while k < x.len() && k < y.len() && x[k] == y[k]
        invariant
            k <= x.len(),
            k <= y.len(),
            forall|i: int| 0 <= i < k ==> x@[i] == y@[i],
        decreases x.len() - k,
    {
        k = k + 1;
    }
    assert(parts_at(x@, y@, k as int));
    proof {
        assert forall|j: int| #![trigger parts_at(x@, y@, j)] parts_at(x@, y@, j) implies j == k by {
            lemma_parts_unique(x@, y@, j, k as int);
        }
    }
    k < y.len() && (k == x.len() || x[k] < y[k])
}

/// The number that a numeral stands for.
pub open spec fn numeral_value(numeral: Seq<char>) -> int
    decreases numeral.len(),
{
    if numeral.len() == 0 {
        0
    } else {
        10 * numeral_value(numeral.drop_last()) + (numeral.last() as int - '0' as int)
    }
}

/// The numeral of a number stands for that number, is made of digits, and has no zero in
/// front.
pub proof fn law_numerals(n: nat)
    ensures
        numeral_value(decimal(n)) == n,
        decimal(n).len() > 0,
        forall|i: int| 0 <= i < decimal(n).len() ==> '0' <= #[trigger] decimal(n)[i] <= '9',
        decimal(n).len() > 1 ==> decimal(n)[0] != '0',
    decreases n,
{
    lemma_decimal_digits(n);
    if n < 10 {
        assert(decimal(n).drop_last() =~= Seq::empty());
        assert(numeral_value(Seq::empty()) == 0);
        assert(decimal(n).last() as int == 48 + n);
    } else {
        law_numerals(n / 10);
        lemma_decimal_digits(n / 10);
        assert(decimal(n).drop_last() =~= decimal(n / 10));
        assert(decimal(n).last() as int == 48 + n % 10);
        assert(decimal(n)[0] == decimal(n / 10)[0]);
        if n / 10 < 10 {
            assert(decimal(n / 10)[0] as int == 48 + n / 10);
        } else {
            lemma_decimal_digits(n / 10 / 10);
            assert(decimal(n / 10).len() > 1);
        }
    }
}

/// A text comes before every longer text that begins with it, and of two texts that part
/// in a byte, the one with the smaller byte comes first.
pub proof fn law_order_of_texts(a: Seq<char>, b: Seq<char>, k: int)
    requires
        0 <= k <= encode_utf8(a).len(),
        k < encode_utf8(b).len(),
        forall|i: int| 0 <= i < k ==> encode_utf8(a)[i] == encode_utf8(b)[i],
        k == encode_utf8(a).len() || encode_utf8(a)[k] < encode_utf8(b)[k],
    ensures
        before(a, b),
        !before(b, a),
{
    let x = encode_utf8(a);
    let y = encode_utf8(b);
    assert(parts_at(x, y, k));
    if before(b, a) {
        lemma_before_transitive(a, b, a);
        lemma_before_irreflexive(a);
    }
}

/// A text is found to stand twice exactly where one does, and the one that is found is the
/// first to come up again.
pub proof fn law_first_repeated(all: Seq<Seq<char>>)
    ensures
        first_repeated(all, 0) is None <==> all.no_duplicates(),
        first_repeated(all, 0) matches Some(text) ==> exists|j: int, k: int|
            0 <= j < k < all.len() && #[trigger] all[j] == text && #[trigger] all[k] == text
                && all.take(k).no_duplicates(),
{
    lemma_first_repeated(all, 0);
}

proof fn lemma_first_repeated(all: Seq<Seq<char>>, i: int)
    requires
        0 <= i <= all.len(),
        all.take(i).no_duplicates(),
    ensures
        first_repeated(all, i) is None <==> all.no_duplicates(),
        first_repeated(all, i) matches Some(text) ==> exists|j: int, k: int|
            0 <= j < k < all.len() && #[trigger] all[j] == text && #[trigger] all[k] == text
                && all.take(k).no_duplicates(),
    decreases all.len() - i,
{
    if i == all.len() {
        assert(all.take(i) =~= all);
    } else if all.take(i).contains(all[i]) {
        let j = all.take(i).index_of(all[i]);
        assert(all[j] == all[i] && j < i);
    } else {
        let next = all.take(i + 1);
        assert forall|a: int, b: int|
            0 <= a < next.len() && 0 <= b < next.len() && a != b implies next[a] != next[b] by {
            if a < i && b < i {
                assert(all.take(i)[a] != all.take(i)[b]);
            } else if a < i {
                assert(all.take(i)[a] != all[i]);
            } else {
                assert(all.take(i)[b] != all[i]);
            }
        }
        lemma_first_repeated(all, i + 1);
    }
}

/// A number is written as the numeral that stands for it, without a zero in front.
pub proof fn law_numbers_are_written(n: u64, r: String)
    requires
        call_ensures(decimal_text, (n,), r),
    ensures
        numeral_value(r@) == n,
        r@.len() > 0,
        forall|i: int| 0 <= i < r@.len() ==> '0' <= #[trigger] r@[i] <= '9',
        r@.len() > 1 ==> r@[0] != '0',
{
    law_numerals(n as nat);
}

} // verus!
