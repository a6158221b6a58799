//! Texts put together from parts.
use crate::sorting::arrange;
use crate::sorting::arranged;
use crate::sorting::arranging_keeps_items;
use crate::sorting::before;
use crate::sorting::is_arrangement;
use crate::sorting::is_order;
use crate::sorting::models;
use crate::sorting::order_by_key;
use crate::sorting::order_exists;
use crate::sorting::order_is_arrangement;
use crate::sorting::order_of;
use crate::sorting::Order;
use crate::sorting::SortKey;
use vstd::prelude::*;
use vstd::string::StringExecFns;

verus! {

/// The characters of an optional text.
pub open spec fn opt_text(o: Option<String>) -> Option<Seq<char>> {
    match o {
        Some(s) => Some(s@),
        None => None,
    }
}

/// The character of a decimal digit.
pub open spec fn digit(d: nat) -> char {
    (48 + d) as char
}

/// A number in decimal notation.
pub open spec fn decimal(n: nat) -> Seq<char>
    decreases n,
{
    if n < 10 {
        seq![digit(n)]
    } else {
        decimal(n / 10).push(digit(n % 10))
    }
}

/// A number in decimal notation, with at least two digits.
pub open spec fn two_digits(n: nat) -> Seq<char> {
    if n < 10 {
        "0"@ + decimal(n)
    } else {
        decimal(n)
    }
}

/// The parts, one after the other.
pub open spec fn joined(parts: Seq<Seq<char>>, separator: Seq<char>) -> Seq<char>
    decreases parts.len(),
{
    if parts.len() == 0 {
        Seq::empty()
    } else if parts.len() == 1 {
        parts[0]
    } else {
        joined(parts.drop_last(), separator) + separator + parts.last()
    }
}

/// The digit `d`, as a text.
fn digit_text(d: u128) -> (r: &'static str)
    requires
        d < 10,
    ensures
        r@ == seq![digit(d as nat)],
{
    proof {
        reveal_strlit("0");
        reveal_strlit("1");
        reveal_strlit("2");
        reveal_strlit("3");
        reveal_strlit("4");
        reveal_strlit("5");
        reveal_strlit("6");
        reveal_strlit("7");
        reveal_strlit("8");
        reveal_strlit("9");
    }
    let r = if d == 0 {
        "0"
    } else if d == 1 {
        "1"
    } else if d == 2 {
        "2"
    } else if d == 3 {
        "3"
    } else if d == 4 {
        "4"
    } else if d == 5 {
        "5"
    } else if d == 6 {
        "6"
    } else if d == 7 {
        "7"
    } else if d == 8 {
        "8"
    } else {
        "9"
    };
    assert(r@ =~= seq![digit(d as nat)]);
    r
}

/// Writes a number in decimal notation.
pub fn decimal_text(n: u128) -> (r: String)
    ensures
        r@ == decimal(n as nat),
    decreases n,
{
    if n < 10 {
        digit_text(n).to_owned()
    } else {
        let mut r = decimal_text(n / 10);
        r.append(digit_text(n % 10));
        assert(r@ =~= decimal(n as nat));
        r
    }
}

/// Writes a size or an index in decimal notation.
pub fn count_text(n: usize) -> (r: String)
    ensures
        r@ == decimal(n as nat),
{
    decimal_text(n as u128)
}

/// Writes a number with at least two digits.
pub fn two_digit_text(n: u32) -> (r: String)
    ensures
        r@ == two_digits(n as nat),
{
    let digits = decimal_text(n as u128);
    if n < 10 {
        let mut r = "0".to_owned();
        r.append(digits.as_str());
        r
    } else {
        digits
    }
}

/// Puts `separator` between the parts.
pub fn join_text(parts: &Vec<String>, separator: &str) -> (r: String)
    ensures
        r@ == joined(parts@.map_values(|p: String| p@), separator@),
{
    let ghost all = parts@.map_values(|p: String| p@);
    let n: usize = parts.len();
    let mut r: String = String::new();
    let mut i: usize = 0;
    while i < n
        invariant
            i <= n,
            n == parts@.len(),
            all == parts@.map_values(|p: String| p@),
            r@ == joined(all.take(i as int), separator@),
        decreases n - i,
    {
        proof {
            assert(all.take(i + 1).drop_last() =~= all.take(i as int));
        }
        if i > 0 {
            r.append(separator);
        }
        r.append(parts[i].as_str());
        assert(r@ =~= joined(all.take(i + 1), separator@));
        i += 1;
    }
    assert(all.take(n as int) =~= all);
    r
}

/// The characters of a text.
pub fn chars_of(s: &str) -> (r: Vec<char>)
    ensures
        r@ == s@,
{
    let mut r: Vec<char> = Vec::new();
    for c in it: s.chars()
        invariant
            it.seq() == s@,
            r@ == s@.take(it.index() as int),
    {
        r.push(c);
        assert(r@ =~= s@.take(it.index() + 1));
    }
    assert(s@.take(s@.len() as int) =~= s@);
    r
}

/// From position `i` on, `a` comes below `b` in the order of characters.
pub open spec fn text_below_from(a: Seq<char>, b: Seq<char>, i: int) -> bool
    decreases b.len() - i,
{
    if i >= b.len() {
        false
    } else if i >= a.len() {
        true
    } else if a[i] != b[i] {
        (a[i] as int) < (b[i] as int)
    } else {
        text_below_from(a, b, i + 1)
    }
}

/// `a` comes below `b`: at the first character that differs it has the lower one, or it
/// ends where `b` goes on.
pub open spec fn text_below(a: Seq<char>, b: Seq<char>) -> bool {
    text_below_from(a, b, 0)
}

proof fn lemma_text_irreflexive(a: Seq<char>, i: int)
    ensures
        !text_below_from(a, a, i),
    decreases a.len() - i,
{
    if i < a.len() {
        lemma_text_irreflexive(a, i + 1);
    }
}

proof fn lemma_text_transitive(a: Seq<char>, b: Seq<char>, c: Seq<char>, i: int)
    requires
        0 <= i,
    ensures
        text_below_from(a, b, i) && text_below_from(b, c, i) ==> text_below_from(a, c, i),
        text_below_from(a, c, i) ==> text_below_from(a, b, i) || text_below_from(b, c, i),
    decreases a.len() + b.len() + c.len() - i,
{
    if i < a.len() && i < b.len() && i < c.len() && a[i] == b[i] && b[i] == c[i] {
        lemma_text_transitive(a, b, c, i + 1);
    }
}

/// Of two different texts one comes below the other.
pub proof fn texts_are_ordered(a: Seq<char>, b: Seq<char>)
    ensures
        a == b || text_below(a, b) || text_below(b, a),
{
    if !text_below(a, b) && !text_below(b, a) {
        lemma_text_total(a, b, 0);
        assert(a =~= b);
    }
}

proof fn lemma_text_total(a: Seq<char>, b: Seq<char>, i: int)
    requires
        0 <= i,
        i <= a.len() || i <= b.len(),
        !text_below_from(a, b, i),
        !text_below_from(b, a, i),
    ensures
        a.len() == b.len() || (i > a.len() || i > b.len()),
        forall|k: int| i <= k < a.len() && k < b.len() ==> a[k] == b[k],
    decreases a.len() + b.len() - i,
{
    if i < a.len() && i < b.len() {
        assert(a[i] == b[i]) by {
            if a[i] != b[i] {
                assert((a[i] as int) < (b[i] as int) || (b[i] as int) < (a[i] as int));
            }
        }
        lemma_text_total(a, b, i + 1);
    }
}

/// The code point of a character.
fn code_of(c: char) -> (r: u32)
    ensures
        r == c as int,
{
    c as u32
}

impl Order for Seq<char> {
    open spec fn below(self, other: Self) -> bool {
        text_below(self, other)
    }

    proof fn below_irreflexive(a: Self) {
        lemma_text_irreflexive(a, 0);
    }

    proof fn below_transitive(a: Self, b: Self, c: Self) {
        lemma_text_transitive(a, b, c, 0);
    }

    proof fn below_connected(a: Self, b: Self, c: Self) {
        lemma_text_transitive(a, b, c, 0);
    }
}

impl SortKey for Vec<char> {
    type Model = Seq<char>;

    open spec fn model(&self) -> Seq<char> {
        self@
    }

    fn is_below(&self, other: &Self) -> (r: bool) {
        let n: usize = self.len();
        let m: usize = other.len();
        let mut i: usize = 0;
        while i < n && i < m && self[i] == other[i]
            invariant
                i <= n,
                i <= m,
                n == self@.len(),
                m == other@.len(),
                text_below(self@, other@) == text_below_from(self@, other@, i as int),
            decreases n - i,
        {
            i += 1;
        }
        if i >= m {
            false
        } else if i >= n {
            true
        } else {
            code_of(self[i]) < code_of(other[i])
        }
    }
}

/// The texts from the lowest to the highest, equal ones in their given order.
pub open spec fn sorted_texts(texts: Seq<Seq<char>>) -> Seq<Seq<char>> {
    arranged(texts, order_of(texts))
}

/// No text comes below one that stands before it.
pub open spec fn in_order(texts: Seq<Seq<char>>) -> bool {
    forall|i: int, j: int| 0 <= i < j < texts.len() ==> !text_below(#[trigger] texts[j], #[trigger] texts[i])
}

/// Sorted texts are in order.
pub proof fn lemma_sorted_in_order(texts: Seq<Seq<char>>, order: Seq<usize>)
    requires
        is_order(texts, order),
        order == order_of(texts),
    ensures
        in_order(sorted_texts(texts)),
{
    assert forall|i: int, j: int| 0 <= i < j < texts.len() implies !text_below(
        #[trigger] sorted_texts(texts)[j],
        #[trigger] sorted_texts(texts)[i],
    ) by {
        let a = order[i];
        let b = order[j];
        assert(before(texts, a, b));
        Seq::<char>::below_irreflexive(texts[a as int]);
        Seq::<char>::below_transitive(texts[a as int], texts[b as int], texts[a as int]);
    }
}

/// The order of some texts.
pub fn order_texts(texts: &Vec<String>) -> (order: Vec<usize>)
    ensures
        is_order(texts@.map_values(|t: String| t@), order@),
        order@ == order_of(texts@.map_values(|t: String| t@)),
        is_arrangement(texts@.len() as int, order@),
{
    let ghost views = texts@.map_values(|t: String| t@);
    let mut keys: Vec<Vec<char>> = Vec::new();
    let n: usize = texts.len();
    let mut i: usize = 0;
    while i < n
        invariant
            i <= n,
            n == texts@.len(),
            keys@.len() == i,
            forall|k: int| 0 <= k < i ==> (#[trigger] keys@[k])@ == texts@[k]@,
        decreases n - i,
    {
        keys.push(chars_of(texts[i].as_str()));
        i += 1;
    }
    assert(models(keys@) =~= views);
    let order = order_by_key(&keys);
    proof {
        order_is_arrangement(views, order@);
    }
    order
}

/// Sorts texts from the lowest to the highest.
pub fn sort_texts(texts: Vec<String>) -> (r: Vec<String>)
    ensures
        r@.map_values(|t: String| t@) == sorted_texts(texts@.map_values(|t: String| t@)),
        in_order(r@.map_values(|t: String| t@)),
{
    let ghost views = texts@.map_values(|t: String| t@);
    let order = order_texts(&texts);
    let r = arrange(texts, &order);
    proof {
        assert(r@.map_values(|t: String| t@) =~= sorted_texts(views));
        lemma_sorted_in_order(views, order@);
    }
    r
}

/// Copies a list of texts.
pub fn clone_texts(texts: &Vec<String>) -> (r: Vec<String>)
    ensures
        r@.map_values(|t: String| t@) == texts@.map_values(|t: String| t@),
{
    let mut r: Vec<String> = Vec::new();
    let n: usize = texts.len();
    let mut i: usize = 0;
    while i < n
        invariant
            i <= n,
            n == texts@.len(),
            r@.len() == i,
            forall|k: int| 0 <= k < i ==> (#[trigger] r@[k])@ == texts@[k]@,
        decreases n - i,
    {
        r.push(texts[i].clone());
        i += 1;
    }
    assert(r@.map_values(|t: String| t@) =~= texts@.map_values(|t: String| t@));
    r
}

/// A number in decimal notation is made of digits, reads back as the number, and has no zero in
/// front of other digits.
pub proof fn decimal_reads_back(n: nat)
    ensures
        decimal(n).fold_left(0int, |read: int, c: char| 10 * read + (c as int - '0' as int)) == n,
        forall|i: int| 0 <= i < decimal(n).len() ==> '0' as int <= (#[trigger] decimal(n)[i]) as int <= '9' as int,
        decimal(n).len() > 0,
        decimal(n).len() > 1 ==> decimal(n)[0] != '0',
        n < 10 <==> decimal(n).len() == 1,
    decreases n,
{
    let next = |read: int, c: char| 10 * read + (c as int - '0' as int);
    let text = decimal(n);
    if n < 10 {
        assert(text.drop_last() =~= Seq::empty());
        reveal_with_fuel(Seq::fold_left, 2);
    } else {
        decimal_reads_back(n / 10);
        assert(text.drop_last() =~= decimal(n / 10));
        assert(text.last() as int == 48 + n % 10);
        assert forall|i: int| 0 <= i < text.len() implies '0' as int <= (#[trigger] text[i]) as int <= '9' as int by {
            if i < text.len() - 1 {
                assert(text[i] == decimal(n / 10)[i]);
            }
        }
        if n / 10 < 10 {
            reveal_with_fuel(decimal, 2);
            assert(text[0] == digit(n / 10));
            assert(text[0] as int == 48 + n / 10);
        } else {
            assert(text[0] == decimal(n / 10)[0]);
        }
    }
}

/// A number of two digits and more is written as it is, and one of a single digit with a zero
/// in front.
pub proof fn two_digits_read_back(n: nat)
    ensures
        two_digits(n).fold_left(0int, |read: int, c: char| 10 * read + (c as int - '0' as int)) == n,
        two_digits(n).len() >= 2,
        n < 100 <==> two_digits(n).len() == 2,
        n < 10 ==> two_digits(n)[0] == '0',
        n >= 10 ==> two_digits(n)[0] != '0',
{
    reveal_strlit("0");
    let next = |read: int, c: char| 10 * read + (c as int - '0' as int);
    decimal_reads_back(n);
    if n < 10 {
        let text = two_digits(n);
        assert(text =~= seq!['0', digit(n)]);
        assert(text.drop_last() =~= seq!['0']);
        assert(text.drop_last().drop_last() =~= Seq::empty());
        reveal_with_fuel(Seq::fold_left, 3);
        assert(digit(n) as int == 48 + n);
    } else {
        decimal_reads_back(n / 10);
    }
}

/// Joining puts the separator between the parts and nowhere else: one part is left as it is, and
/// two runs of parts are joined by one separator between what each of them makes.
pub proof fn joining_separates_parts(a: Seq<Seq<char>>, b: Seq<Seq<char>>, separator: Seq<char>)
    ensures
        a.len() == 0 ==> joined(a, separator) == Seq::<char>::empty(),
        a.len() == 1 ==> joined(a, separator) == a[0],
        a.len() > 0 && b.len() > 0 ==> joined(a + b, separator) == joined(a, separator) + separator + joined(b, separator),
    decreases b.len(),
{
    if a.len() > 0 && b.len() > 0 {
        let all = a + b;
        assert(all.last() == b.last());
        if b.len() == 1 {
            assert(all.drop_last() =~= a);
        } else {
            joining_separates_parts(a, b.drop_last(), separator);
            assert(all.drop_last() =~= a + b.drop_last());
            assert(joined(all, separator) =~= joined(a, separator) + separator + joined(b, separator));
        }
    }
}

proof fn lemma_below_at(a: Seq<char>, b: Seq<char>, i: int, k: int)
    requires
        0 <= i <= k,
        k <= a.len(),
        k < b.len(),
        forall|j: int| i <= j < k ==> a[j] == b[j],
        k == a.len() || (a[k] as int) < (b[k] as int),
    ensures
        text_below_from(a, b, i),
    decreases k - i,
{
    if i < k {
        lemma_below_at(a, b, i + 1, k);
    }
}

proof fn lemma_where_below(a: Seq<char>, b: Seq<char>, i: int) -> (k: int)
    requires
        0 <= i,
        i <= a.len(),
        text_below_from(a, b, i),
    ensures
        i <= k <= a.len(),
        k < b.len(),
        forall|j: int| i <= j < k ==> a[j] == b[j],
        k == a.len() || (a[k] as int) < (b[k] as int),
    decreases b.len() - i,
{
    if i >= a.len() || a[i] != b[i] {
        i
    } else {
        lemma_where_below(a, b, i + 1)
    }
}

/// A text comes below another just where the two agree up to a place at which the first one
/// ends and the other goes on, or at which the first one has the lower character.
pub proof fn first_difference_decides(a: Seq<char>, b: Seq<char>)
    ensures
        text_below(a, b) <==> exists|k: int|
            0 <= k <= a.len() && k < b.len() && #[trigger] a.take(k) == b.take(k) && (k == a.len() || (a[k] as int) < (
            b[k] as int)),
{
    if text_below(a, b) {
        let k = lemma_where_below(a, b, 0);
        assert(a.take(k) =~= b.take(k));
    }
    if exists|k: int|
        0 <= k <= a.len() && k < b.len() && #[trigger] a.take(k) == b.take(k) && (k == a.len() || (a[k] as int) < (b[k] as int)) {
        let k = choose|k: int|
            0 <= k <= a.len() && k < b.len() && #[trigger] a.take(k) == b.take(k) && (k == a.len() || (a[k] as int) < (
            b[k] as int));
        assert forall|j: int| 0 <= j < k implies a[j] == b[j] by {
            assert(a.take(k)[j] == b.take(k)[j]);
        }
        lemma_below_at(a, b, 0, k);
    }
}

/// Sorting texts keeps each as often as it is given.
pub proof fn sorting_keeps_texts(texts: Seq<Seq<char>>)
    requires
        texts.len() <= usize::MAX,
    ensures
        sorted_texts(texts).to_multiset() == texts.to_multiset(),
        in_order(sorted_texts(texts)),
{
    order_exists(texts);
    let order = order_of(texts);
    order_is_arrangement(texts, order);
    arranging_keeps_items(texts, order);
    lemma_sorted_in_order(texts, order);
}

} // verus!
