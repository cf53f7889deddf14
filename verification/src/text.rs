//! Text assembly and the byte order of identifiers.

use vstd::prelude::*;

verus! {

/// The written form of one decimal digit.
pub open spec fn digit(d: int) -> Seq<char> {
    if d == 0 {
        "0"@
    } else if d == 1 {
        "1"@
    } else if d == 2 {
        "2"@
    } else if d == 3 {
        "3"@
    } else if d == 4 {
        "4"@
    } else if d == 5 {
        "5"@
    } else if d == 6 {
        "6"@
    } else if d == 7 {
        "7"@
    } else if d == 8 {
        "8"@
    } else {
        "9"@
    }
}

/// The decimal notation of a count, without leading zeros.
pub open spec fn digits(n: nat) -> Seq<char>
    decreases n,
{
    if n < 10 {
        digit(n as int)
    } else {
        digits(n / 10) + digit((n % 10) as int)
    }
}

fn digit_text(d: usize) -> (r: &'static str)
    requires
        d < 10,
    ensures
        r@ == digit(d as int),
{
    if d == 0 {
        "0"
    } else if d == 1 {
        "1"
    } else if d == 2 {
        "2"
    } else if d == 3 {
        "3"
    } else if d == 4 {
        "4"
    } else if d == 5 {
        "5"
    } else if d == 6 {
        "6"
    } else if d == 7 {
        "7"
    } else if d == 8 {
        "8"
    } else {
        "9"
    }
}

/// Writes a count in decimal.
pub fn decimal(n: usize) -> (r: String)
    ensures
        r@ == digits(n as nat),
    decreases n,
{
    if n < 10 {
        digit_text(n).to_owned()
    } else {
        let mut text = decimal(n / 10);
        text.append(digit_text(n % 10));
        text
    }
}

/// What some texts hold.
pub open spec fn views(texts: Seq<String>) -> Seq<Seq<char>> {
    texts.map_values(|text: String| text@)
}

/// The first `n` pieces, with a separator between each two.
pub open spec fn joined(pieces: Seq<Seq<char>>, separator: Seq<char>, n: int) -> Seq<char>
    decreases n,
{
    if n <= 0 {
        Seq::empty()
    } else if n == 1 {
        pieces[0]
    } else {
        joined(pieces, separator, n - 1) + separator + pieces[n - 1]
    }
}

/// The text of the first pieces does not depend on what follows them.
proof fn joined_ignores_rest(
    pieces: Seq<Seq<char>>,
    more: Seq<Seq<char>>,
    separator: Seq<char>,
    n: int,
)
    requires
        0 <= n <= pieces.len(),
    ensures
        joined(pieces + more, separator, n) == joined(pieces, separator, n),
    decreases n,
{
    if n > 0 {
        joined_ignores_rest(pieces, more, separator, n - 1);
        assert((pieces + more)[n - 1] == pieces[n - 1]);
    }
}

/// Pieces joined in two parts are the two texts with a separator between.
pub proof fn joined_in_parts(
    first: Seq<Seq<char>>,
    second: Seq<Seq<char>>,
    separator: Seq<char>,
    n: int,
)
    requires
        first.len() > 0,
        0 < n <= second.len(),
    ensures
        joined(first + second, separator, first.len() + n) == joined(
            first,
            separator,
            first.len() as int,
        ) + separator + joined(second, separator, n),
    decreases n,
{
    let all = first + second;
    let head = joined(first, separator, first.len() as int);
    let last = second[n - 1];
    assert(all[first.len() + n - 1] == last);
    if n == 1 {
        joined_ignores_rest(first, second, separator, first.len() as int);
    } else {
        joined_in_parts(first, second, separator, n - 1);
        let tail = joined(second, separator, n - 1);
        assert(head + separator + tail + separator + last =~= head + separator + (tail + separator
            + last));
    }
}

/// Joins pieces of text with a separator between each two.
pub fn join(pieces: &Vec<String>, separator: &str) -> (r: String)
    ensures
        r@ == joined(views(pieces@), separator@, pieces@.len() as int),
{
    let ghost all = views(pieces@);
    let mut text = String::new();
    let mut i: usize = 0;
    while i < pieces.len()
        invariant
            i <= pieces@.len(),
            all == views(pieces@),
            text@ == joined(all, separator@, i as int),
        decreases pieces@.len() - i,
    {
        assert(all[i as int] == pieces@[i as int]@);
        if i == 0 {
            text = pieces[i].clone();
        } else {
            text.append(separator);
            text.append(pieces[i].as_str());
        }
        i += 1;
    }
    text
}

/// Whether two byte strings agree before place `k`, where `a` ends or holds the
/// smaller byte.
pub open spec fn splits_before(a: Seq<u8>, b: Seq<u8>, k: int) -> bool {
    &&& 0 <= k <= a.len()
    &&& k < b.len()
    &&& forall|j: int| 0 <= j < k ==> a[j] == b[j]
    &&& k == a.len() || a[k] < b[k]
}

/// The lexicographic order of byte strings.
pub open spec fn bytes_precede(a: Seq<u8>, b: Seq<u8>) -> bool {
    exists|k: int| splits_before(a, b, k)
}

/// The order of texts: lexicographic in their UTF-8 encodings.
pub open spec fn text_precedes(a: Seq<char>, b: Seq<char>) -> bool {
    bytes_precede(vstd::utf8::encode_utf8(a), vstd::utf8::encode_utf8(b))
}

/// The order of byte strings is strict and total.
pub proof fn byte_order_is_total(a: Seq<u8>, b: Seq<u8>)
    ensures
        !(bytes_precede(a, b) && bytes_precede(b, a)),
        bytes_precede(a, b) || bytes_precede(b, a) || a == b,
{
    if bytes_precede(a, b) && bytes_precede(b, a) {
        let k = choose|k: int| splits_before(a, b, k);
        let l = choose|l: int| splits_before(b, a, l);
        if k < l {
            assert(b[k] == a[k]);
        } else if l < k {
            assert(a[l] == b[l]);
        }
    }
    if !bytes_precede(a, b) && !bytes_precede(b, a) {
        byte_order_gap(a, b, 0);
        assert(a =~= b);
    }
}

proof fn byte_order_gap(a: Seq<u8>, b: Seq<u8>, k: int)
    requires
        !bytes_precede(a, b),
        !bytes_precede(b, a),
        0 <= k <= a.len(),
        k <= b.len(),
        forall|j: int| 0 <= j < k ==> a[j] == b[j],
    ensures
        a =~= b,
    decreases a.len() - k,
{
    assert(!splits_before(a, b, k));
    assert(!splits_before(b, a, k));
    if k < a.len() {
        byte_order_gap(a, b, k + 1);
    }
}

/// The order of byte strings is transitive.
pub proof fn byte_order_is_transitive(a: Seq<u8>, b: Seq<u8>, c: Seq<u8>)
    requires
        bytes_precede(a, b),
        bytes_precede(b, c),
    ensures
        bytes_precede(a, c),
{
    let k = choose|k: int| splits_before(a, b, k);
    let l = choose|l: int| splits_before(b, c, l);
    if k <= l {
        assert(splits_before(a, c, k));
    } else {
        assert(splits_before(a, c, l));
    }
}

/// Whether one text precedes another.
pub fn precedes(a: &str, b: &str) -> (r: bool)
    ensures
        r == text_precedes(a@, b@),
{
    let left = a.as_bytes();
    let right = b.as_bytes();
    let mut k: usize = 0;
    while k < left.len() && k < right.len() && left[k] == right[k]
        invariant
            k <= left@.len(),
            k <= right@.len(),
            forall|j: int| 0 <= j < k ==> left@[j] == right@[j],
        decreases left@.len() - k,
    {
        k += 1;
    }
    let r = k < right.len() && (k == left.len() || left[k] < right[k]);
    proof {
        if r {
            assert(splits_before(left@, right@, k as int));
        } else if bytes_precede(left@, right@) {
            let l = choose|l: int| splits_before(left@, right@, l);
            assert(splits_before(left@, right@, l));
        }
    }
    r
}

} // verus!
