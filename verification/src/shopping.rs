//! A shopping list: named items with amounts, kept in insertion order until
//! sorted. Amounts are unsigned 64-bit counts. The list is viewed as a
//! sequence of `(name, amount)` pairs; sorting orders it by name, and
//! deduplication merges equally named entries by summing their amounts.
//!
//! Reading the list from a file and writing it back are input/output and
//! live outside the library; they hand lines in and take lines out as plain
//! values.

use vstd::multiset::Multiset;
use vstd::prelude::*;
use vstd::seq_lib::lemma_multiset_commutative;

use crate::conversions::chars_of;
use crate::tokenize::{
    all_digits, digit_val, digits_val, is_digit, lemma_digits_val_mono, lemma_digits_val_nonneg,
};

verus! {

/// The digit part of an amount: everything after an optional leading plus.
pub open spec fn amount_digits(s: Seq<char>) -> Seq<char> {
    if s.len() > 0 && s[0] == '+' {
        s.drop_first()
    } else {
        s
    }
}

/// Whether text reads as an unsigned 64-bit decimal amount: an optional
/// leading plus, then at least one digit, with the value in `u64` range.
pub open spec fn is_amount(s: Seq<char>) -> bool {
    &&& amount_digits(s).len() > 0
    &&& all_digits(amount_digits(s))
    &&& digits_val(amount_digits(s)) <= u64::MAX
}

/// Reads an amount, exactly as the grammar of `is_amount` has it.
pub fn parse_amount(s: &str) -> (r: Option<u64>)
    ensures
        r is Some <==> is_amount(s@),
        r matches Some(v) ==> v == digits_val(amount_digits(s@)),
{
    let chars = chars_of(s);
    let n = chars.len();
    if n == 0 {
        return None;
    }
    let mut start: usize = 0;
    if chars[0] == '+' {
        start = 1;
    }
    if start == n {
        return None;
    }
    let ghost digits = s@.skip(start as int);
    proof {
        assert(digits =~= amount_digits(s@));
    }
    let mut acc: u64 = 0;
    let mut j = start;
    while j < n
        invariant
            start <= j <= n,
            n == s@.len(),
            chars@ == s@,
            digits == s@.skip(start as int),
            digits == amount_digits(s@),
            digits.len() > 0,
            all_digits(digits.take(j - start)),
            acc as int == digits_val(digits.take(j - start)),
        decreases n - j,
    {
        let c = chars[j];
        let code = c as u32;
        if code < 48 || code > 57 {
            proof {
                assert(!is_digit(digits[j - start]));
            }
            return None;
        }
        let d = (code - 48) as u64;
        let ghost taken = digits.take(j - start);
        let ghost taken1 = digits.take(j + 1 - start);
        proof {
            assert(taken1.drop_last() =~= taken);
            assert(taken1.last() == digits[j - start]);
            assert(digits_val(taken1) == digits_val(taken) * 10 + d);
        }
        let scaled = match acc.checked_mul(10) {
            Some(x) => x,
            None => {
                proof {
                    lemma_amount_out_of_range(digits, j + 1 - start, s@);
                }
                return None;
            },
        };
        acc = match scaled.checked_add(d) {
            Some(y) => y,
            None => {
                proof {
                    lemma_amount_out_of_range(digits, j + 1 - start, s@);
                }
                return None;
            },
        };
        j = j + 1;
    }
    proof {
        assert(digits.take(n - start) =~= digits);
        lemma_digits_val_nonneg(digits);
    }
    Some(acc)
}

/// The helper for `parse_amount`'s overflow exits: once some digit prefix
/// values past the unsigned 64-bit range, the text is no amount.
proof fn lemma_amount_out_of_range(digits: Seq<char>, k: int, s: Seq<char>)
    requires
        digits == amount_digits(s),
        0 <= k <= digits.len(),
        digits_val(digits.take(k)) > u64::MAX as int,
    ensures
        !is_amount(s),
{
    if all_digits(digits) {
        lemma_digits_val_mono(digits, k);
    }
}

/// The decimal digits of a value, most significant first, without leading
/// zeroes.
pub open spec fn dec_chars(v: nat) -> Seq<char>
    decreases v,
{
    if v < 10 {
        seq![((48 + v) as u32) as char]
    } else {
        dec_chars(v / 10).push(((48 + v % 10) as u32) as char)
    }
}

/// Rendering and reading an amount are inverse: the decimal digits of a
/// value read back as that value, and they form a well-formed amount.
pub proof fn lemma_dec_chars_value(v: nat)
    ensures
        all_digits(dec_chars(v)),
        dec_chars(v).len() > 0,
        digits_val(dec_chars(v)) == v,
        v <= u64::MAX ==> is_amount(dec_chars(v)),
    decreases v,
{
    if v < 10 {
        let c = ((48 + v) as u32) as char;
        assert(c as u32 == 48 + v);
        assert(c != '+');
        assert(dec_chars(v) == seq![c]);
        assert(dec_chars(v).drop_last() =~= Seq::<char>::empty());
        assert(digits_val(Seq::<char>::empty()) == 0);
        assert(digit_val(c) == v);
        assert(digits_val(dec_chars(v)) == v);
        assert(amount_digits(dec_chars(v)) == dec_chars(v));
    } else {
        lemma_dec_chars_value(v / 10);
        let c = ((48 + v % 10) as u32) as char;
        assert(c as u32 == 48 + v % 10);
        assert(c != '+');
        let d = dec_chars(v);
        assert(d.drop_last() =~= dec_chars(v / 10));
        assert(d.last() == c);
        assert(digits_val(d) == digits_val(dec_chars(v / 10)) * 10 + digit_val(c));
        assert(v / 10 * 10 + v % 10 == v) by {
            vstd::arithmetic::div_mod::lemma_fundamental_div_mod(v as int, 10);
        }
        assert(digits_val(d) == v);
        assert(forall|i: int| 0 <= i < d.len() - 1 ==> d[i] == dec_chars(v / 10)[i]);
        assert(d[0] != '+');
        assert(amount_digits(d) == d);
    }
}

/// The decimal text of an amount.
pub fn amount_chars(v: u64) -> (r: Vec<char>)
    ensures
        r@ == dec_chars(v as nat),
{
    let mut rev: Vec<char> = Vec::new();
    let mut rem = v;
    proof {
        assert(rev@.reverse() =~= Seq::<char>::empty());
        assert(dec_chars(v as nat) + rev@.reverse() =~= dec_chars(v as nat));
    }
    while rem >= 10
        invariant
            dec_chars(v as nat) == dec_chars(rem as nat) + rev@.reverse(),
        decreases rem,
    {
        let ghost rem0 = rem as nat;
        let ghost rev0 = rev@;
        let d = (rem % 10) as u8;
        let digit = (48 + d) as char;
        rev.push(digit);
        rem = rem / 10;
        proof {
            let c = ((48 + rem0 % 10) as u32) as char;
            assert(digit as u32 == 48 + rem0 % 10);
            assert(c as u32 == 48 + rem0 % 10);
            vstd::utf8::char_u32_cast(digit, digit as u32);
            vstd::utf8::char_u32_cast(c, c as u32);
            assert(digit == c);
            assert(rem as nat == rem0 / 10);
            assert(dec_chars(rem0) == dec_chars(rem0 / 10).push(c));
            assert(rev@.reverse() =~= seq![c] + rev0.reverse());
            assert(dec_chars(rem as nat) + rev@.reverse() =~= (dec_chars(rem0 / 10).push(c))
                + rev0.reverse());
        }
    }
    let ghost rev1 = rev@;
    let dlast = rem as u8;
    let digit = (48 + dlast) as char;
    rev.push(digit);
    proof {
        let c = ((48 + rem as nat) as u32) as char;
        assert(digit as u32 == 48 + rem as nat);
        assert(c as u32 == 48 + rem as nat);
        vstd::utf8::char_u32_cast(digit, digit as u32);
        vstd::utf8::char_u32_cast(c, c as u32);
        assert(digit == c);
        assert(dec_chars(rem as nat) == seq![c]);
        assert(rev@.reverse() =~= seq![c] + rev1.reverse());
        assert(rev@.reverse() =~= dec_chars(v as nat));
    }
    let mut r: Vec<char> = Vec::new();
    let mut k = rev.len();
    while k > 0
        invariant
            k <= rev@.len(),
            r@.len() == rev@.len() - k,
            forall|idx: int| 0 <= idx < r@.len() ==> r@[idx] == rev@[rev@.len() - 1 - idx],
        decreases k,
    {
        k = k - 1;
        r.push(rev[k]);
    }
    proof {
        assert(r@ =~= rev@.reverse());
    }
    r
}

/// Lexicographic order on character sequences by code point, the order in
/// which names are sorted.
pub open spec fn lex_leq(a: Seq<char>, b: Seq<char>) -> bool
    decreases a.len(),
{
    if a.len() == 0 {
        true
    } else if b.len() == 0 {
        false
    } else if (a[0] as u32) < (b[0] as u32) {
        true
    } else if (a[0] as u32) > (b[0] as u32) {
        false
    } else {
        lex_leq(a.drop_first(), b.drop_first())
    }
}

/// `lex_leq` is total.
pub proof fn lemma_lex_total(a: Seq<char>, b: Seq<char>)
    ensures
        lex_leq(a, b) || lex_leq(b, a),
    decreases a.len(),
{
    if a.len() > 0 && b.len() > 0 && a[0] as u32 == b[0] as u32 {
        lemma_lex_total(a.drop_first(), b.drop_first());
    }
}

/// `lex_leq` is transitive.
/// `lex_leq` is reflexive.
pub proof fn lemma_lex_refl(a: Seq<char>)
    ensures
        lex_leq(a, a),
    decreases a.len(),
{
    if a.len() > 0 {
        lemma_lex_refl(a.drop_first());
    }
}

pub proof fn lemma_lex_trans(a: Seq<char>, b: Seq<char>, c: Seq<char>)
    requires
        lex_leq(a, b),
        lex_leq(b, c),
    ensures
        lex_leq(a, c),
    decreases a.len(),
{
    if a.len() > 0 && b.len() > 0 && c.len() > 0 && a[0] as u32 == b[0] as u32 && b[0] as u32 == c[0]
        as u32 {
        lemma_lex_trans(a.drop_first(), b.drop_first(), c.drop_first());
    }
}

/// The view of the stored pairs: names as character sequences.
pub open spec fn items_view(items: Seq<(String, u64)>) -> Seq<(Seq<char>, u64)> {
    items.map_values(|p: (String, u64)| (p.0@, p.1))
}

/// Whether the entries are ordered by name.
pub open spec fn sorted_by_name(s: Seq<(Seq<char>, u64)>) -> bool {
    forall|i: int, j: int| 0 <= i < j < s.len() ==> lex_leq(#[trigger] s[i].0, #[trigger] s[j].0)
}

/// The index of the first entry with the given name, if any.
pub open spec fn first_with_name(s: Seq<(Seq<char>, u64)>, name: Seq<char>) -> Option<int>
    decreases s.len(),
{
    if s.len() == 0 {
        None
    } else if s[0].0 == name {
        Some(0)
    } else {
        match first_with_name(s.drop_first(), name) {
            Some(i) => Some(i + 1),
            None => None,
        }
    }
}

/// What `first_with_name` finds, spelt out over indices.
pub proof fn lemma_first_with_name(s: Seq<(Seq<char>, u64)>, name: Seq<char>)
    ensures
        match first_with_name(s, name) {
            Some(i) => 0 <= i < s.len() && s[i].0 == name && forall|k: int|
                0 <= k < i ==> (#[trigger] s[k]).0 != name,
            None => forall|k: int| 0 <= k < s.len() ==> (#[trigger] s[k]).0 != name,
        },
    decreases s.len(),
{
    if s.len() > 0 && s[0].0 != name {
        lemma_first_with_name(s.drop_first(), name);
        assert(forall|k: int| 1 <= k < s.len() ==> #[trigger] s[k] == s.drop_first()[k - 1]);
    }
}

/// The summed amount carried by entries of one name.
pub open spec fn name_total(s: Seq<(Seq<char>, u64)>, name: Seq<char>) -> int
    decreases s.len(),
{
    if s.len() == 0 {
        0
    } else {
        (if s[0].0 == name {
            s[0].1 as int
        } else {
            0
        }) + name_total(s.drop_first(), name)
    }
}

/// The summed amount over the whole list.
pub open spec fn total_amount(s: Seq<(Seq<char>, u64)>) -> int
    decreases s.len(),
{
    if s.len() == 0 {
        0
    } else {
        s[0].1 + total_amount(s.drop_first())
    }
}

pub proof fn lemma_name_total_concat(a: Seq<(Seq<char>, u64)>, b: Seq<(Seq<char>, u64)>, name: Seq<char>)
    ensures
        name_total(a + b, name) == name_total(a, name) + name_total(b, name),
    decreases a.len(),
{
    if a.len() == 0 {
        assert(a + b =~= b);
    } else {
        assert((a + b).drop_first() =~= a.drop_first() + b);
        lemma_name_total_concat(a.drop_first(), b, name);
    }
}

pub proof fn lemma_total_concat(a: Seq<(Seq<char>, u64)>, b: Seq<(Seq<char>, u64)>)
    ensures
        total_amount(a + b) == total_amount(a) + total_amount(b),
    decreases a.len(),
{
    if a.len() == 0 {
        assert(a + b =~= b);
    } else {
        assert((a + b).drop_first() =~= a.drop_first() + b);
        lemma_total_concat(a.drop_first(), b);
    }
}

pub proof fn lemma_total_singleton(x: (Seq<char>, u64))
    ensures
        total_amount(seq![x]) == x.1,
{
    assert(seq![x].len() == 1);
    assert(seq![x][0] == x);
    assert(seq![x].drop_first() =~= Seq::<(Seq<char>, u64)>::empty());
    assert(total_amount(Seq::<(Seq<char>, u64)>::empty()) == 0);
}

pub proof fn lemma_name_total_singleton(x: (Seq<char>, u64), name: Seq<char>)
    ensures
        name_total(seq![x], name) == if x.0 == name {
            x.1 as int
        } else {
            0
        },
{
    assert(seq![x].len() == 1);
    assert(seq![x][0] == x);
    assert(seq![x].drop_first() =~= Seq::<(Seq<char>, u64)>::empty());
    assert(name_total(Seq::<(Seq<char>, u64)>::empty(), name) == 0);
}

pub proof fn lemma_total_nonneg(s: Seq<(Seq<char>, u64)>)
    ensures
        total_amount(s) >= 0,
    decreases s.len(),
{
    if s.len() > 0 {
        lemma_total_nonneg(s.drop_first());
    }
}

pub proof fn lemma_name_total_nonneg(s: Seq<(Seq<char>, u64)>, name: Seq<char>)
    ensures
        name_total(s, name) >= 0,
    decreases s.len(),
{
    if s.len() > 0 {
        lemma_name_total_nonneg(s.drop_first(), name);
    }
}

/// Compares two names in the lexicographic order, code point by code point.
pub fn str_le(a: &String, b: &String) -> (r: bool)
    ensures
        r == lex_leq(a@, b@),
{
    let astr = a.as_str();
    let bstr = b.as_str();
    let an = astr.unicode_len();
    let bn = bstr.unicode_len();
    let mut i: usize = 0;
    proof {
        assert(a@.skip(0) =~= a@);
        assert(b@.skip(0) =~= b@);
    }
    while i < an && i < bn
        invariant
            i <= an,
            i <= bn,
            an == a@.len(),
            bn == b@.len(),
            astr@ == a@,
            bstr@ == b@,
            lex_leq(a@, b@) == lex_leq(a@.skip(i as int), b@.skip(i as int)),
        decreases an - i,
    {
        let ca = astr.get_char(i) as u32;
        let cb = bstr.get_char(i) as u32;
        proof {
            assert(a@.skip(i as int)[0] == a@[i as int]);
            assert(b@.skip(i as int)[0] == b@[i as int]);
            assert(a@.skip(i as int).drop_first() =~= a@.skip(i + 1));
            assert(b@.skip(i as int).drop_first() =~= b@.skip(i + 1));
        }
        if ca < cb {
            return true;
        }
        if ca > cb {
            return false;
        }
        i = i + 1;
    }
    proof {
        if i == an {
            assert(a@.skip(i as int).len() == 0);
        } else {
            assert(b@.skip(i as int).len() == 0);
            assert(a@.skip(i as int).len() > 0);
        }
    }
    i == an
}

/// The index before which a new entry of the given name is inserted to
/// keep the list ordered: just past the last entry whose name is at most
/// the new one, so equally named entries keep their arrival order.
fn insert_position(sorted: &Vec<(String, u64)>, name: &String) -> (k: usize)
    ensures
        k <= sorted@.len(),
        forall|m: int| 0 <= m < k ==> lex_leq((#[trigger] items_view(sorted@)[m]).0, name@),
        k < sorted@.len() ==> !lex_leq(items_view(sorted@)[k as int].0, name@),
{
    let mut k: usize = 0;
    while k < sorted.len()
        invariant
            k <= sorted@.len(),
            forall|m: int| 0 <= m < k ==> lex_leq((#[trigger] items_view(sorted@)[m]).0, name@),
        decreases sorted@.len() - k,
    {
        if !str_le(&sorted[k].0, name) {
            proof {
                assert(items_view(sorted@)[k as int].0 == sorted@[k as int].0@);
            }
            return k;
        }
        proof {
            assert(items_view(sorted@)[k as int].0 == sorted@[k as int].0@);
        }
        k = k + 1;
    }
    k
}

/// The shopping list: `(name, amount)` entries in insertion order, and a
/// flag that tells the surrounding program to write the list out when it
/// drops its handle.
pub struct ShoppingList {
    items: Vec<(String, u64)>,
    save_on_drop: bool,
}

impl View for ShoppingList {
    type V = Seq<(Seq<char>, u64)>;

    closed spec fn view(&self) -> Seq<(Seq<char>, u64)> {
        items_view(self.items@)
    }
}

impl ShoppingList {
    /// Whether the surrounding program is asked to save the list when the
    /// handle drops.
    pub closed spec fn saves_on_drop(&self) -> bool {
        self.save_on_drop
    }

    /// An empty list that is not saved on drop.
    pub fn new() -> (r: Self)
        ensures
            r@ == Seq::<(Seq<char>, u64)>::empty(),
            !r.saves_on_drop(),
    {
        let r = ShoppingList { items: Vec::new(), save_on_drop: false };
        proof {
            assert(r@ =~= Seq::<(Seq<char>, u64)>::empty());
        }
        r
    }

    /// The number of entries.
    pub fn len(&self) -> (n: usize)
        ensures
            n == self@.len(),
    {
        self.items.len()
    }

    /// The entry at an index, name cloned out.
    pub fn entry(&self, i: usize) -> (r: (String, u64))
        requires
            i < self@.len(),
        ensures
            (r.0@, r.1) == self@[i as int],
    {
        (self.items[i].0.clone(), self.items[i].1)
    }

    /// The index of the first entry named `item`, if any.
    fn position_of(&self, item: &String) -> (r: Option<usize>)
        ensures
            match r {
                Some(k) => first_with_name(self@, item@) == Some(k as int),
                None => first_with_name(self@, item@) is None,
            },
    {
        proof {
            lemma_first_with_name(self@, item@);
        }
        let mut k: usize = 0;
        while k < self.items.len()
            invariant
                k <= self@.len(),
                self@.len() == self.items@.len(),
                forall|m: int| 0 <= m < k ==> (#[trigger] self@[m]).0 != item@,
            decreases self@.len() - k,
        {
            if self.items[k].0 == *item {
                proof {
                    lemma_first_with_name(self@, item@);
                    assert(self@[k as int].0 == item@);
                }
                return Some(k);
            }
            proof {
                assert(self@[k as int].0 != item@);
            }
            k = k + 1;
        }
        proof {
            lemma_first_with_name(self@, item@);
        }
        None
    }

    /// Appends an entry, behind any existing entry of the same name.
    pub fn insert(&mut self, item: String, amount: u64)
        ensures
            final(self)@ == old(self)@.push((item@, amount)),
            final(self).saves_on_drop() == old(self).saves_on_drop(),
    {
        let ghost before = self@;
        self.items.push((item, amount));
        proof {
            assert(self@ =~= before.push((item@, amount)));
        }
    }

    /// Replaces the amount of the first entry named `item`, or appends a new
    /// entry when the name is absent.
    pub fn update(&mut self, item: String, amount: u64)
        ensures
            match first_with_name(old(self)@, item@) {
                Some(k) => final(self)@ == old(self)@.update(k, (item@, amount)),
                None => final(self)@ == old(self)@.push((item@, amount)),
            },
            final(self).saves_on_drop() == old(self).saves_on_drop(),
    {
        let ghost before = self@;
        match self.position_of(&item) {
            Some(k) => {
                proof {
                    lemma_first_with_name(before, item@);
                }
                self.items.remove(k);
                self.items.insert(k, (item, amount));
                proof {
                    assert(self@ =~= before.update(k as int, (item@, amount)));
                }
            },
            None => {
                self.items.push((item, amount));
                proof {
                    assert(self@ =~= before.push((item@, amount)));
                }
            },
        }
    }

    /// Removes the first entry named `item`; without one, does nothing.
    pub fn remove(&mut self, item: &String)
        ensures
            match first_with_name(old(self)@, item@) {
                Some(k) => final(self)@ == old(self)@.remove(k),
                None => final(self)@ == old(self)@,
            },
            final(self).saves_on_drop() == old(self).saves_on_drop(),
    {
        let ghost before = self@;
        match self.position_of(item) {
            Some(k) => {
                proof {
                    lemma_first_with_name(before, item@);
                }
                self.items.remove(k);
                proof {
                    assert(self@ =~= before.remove(k as int));
                }
            },
            None => {},
        }
    }

    /// The amount of the first entry named `item`, if any.
    pub fn get(&self, item: &String) -> (r: Option<u64>)
        ensures
            match first_with_name(self@, item@) {
                Some(k) => r == Some(self@[k].1),
                None => r is None,
            },
    {
        match self.position_of(item) {
            Some(k) => {
                proof {
                    lemma_first_with_name(self@, item@);
                }
                Some(self.items[k].1)
            },
            None => None,
        }
    }

    /// One line of the saved form of the list: the entry's name, a colon,
    /// the decimal amount, and a newline.
    pub fn entry_line(&self, i: usize) -> (r: Vec<char>)
        requires
            i < self@.len(),
        ensures
            r@ == self@[i as int].0 + seq![':'] + dec_chars(self@[i as int].1 as nat)
                + seq!['\n'],
    {
        let ghost name = self@[i as int].0;
        let mut line = chars_of(self.items[i].0.as_str());
        line.push(':');
        let digits = amount_chars(self.items[i].1);
        let ghost dv = digits@;
        let mut k: usize = 0;
        proof {
            assert(line@ =~= name + seq![':'] + dv.take(0));
        }
        while k < digits.len()
            invariant
                k <= dv.len(),
                digits@ == dv,
                line@ == name + seq![':'] + dv.take(k as int),
            decreases dv.len() - k,
        {
            line.push(digits[k]);
            proof {
                assert(name + seq![':'] + dv.take(k as int) + seq![dv[k as int]] =~= name
                    + seq![':'] + dv.take(k + 1));
            }
            k = k + 1;
        }
        line.push('\n');
        proof {
            assert(dv.take(dv.len() as int) =~= dv);
            assert(line@ =~= name + seq![':'] + dv + seq!['\n']);
        }
        line
    }

    /// Whether two lists hold the same entries in the same order.
    pub fn same_items(&self, other: &Self) -> (b: bool)
        ensures
            b == (self@ == other@),
    {
        if self.items.len() != other.items.len() {
            proof {
                assert(self@.len() == self.items@.len());
                assert(other@.len() == other.items@.len());
            }
            return false;
        }
        let mut i: usize = 0;
        while i < self.items.len()
            invariant
                i <= self.items@.len(),
                self.items@.len() == other.items@.len(),
                self@.len() == self.items@.len(),
                other@.len() == other.items@.len(),
                forall|k: int| 0 <= k < i ==> #[trigger] self@[k] == other@[k],
            decreases self.items@.len() - i,
        {
            if !(self.items[i].0 == other.items[i].0) {
                proof {
                    assert(self@[i as int].0 != other@[i as int].0);
                }
                return false;
            }
            if self.items[i].1 != other.items[i].1 {
                proof {
                    assert(self@[i as int].1 != other@[i as int].1);
                }
                return false;
            }
            proof {
                assert(self@[i as int] == other@[i as int]);
            }
            i = i + 1;
        }
        proof {
            assert(self@ =~= other@);
        }
        true
    }

    /// Whether the surrounding program was asked to save the list when the
    /// handle drops.
    pub fn is_save_on_drop(&self) -> (b: bool)
        ensures
            b == self.saves_on_drop(),
    {
        self.save_on_drop
    }

    /// Asks the surrounding program to save the list when the handle drops.
    pub fn save_on_drop(&mut self)
        ensures
            final(self)@ == old(self)@,
            final(self).saves_on_drop(),
    {
        self.save_on_drop = true;
    }

    /// Sorts the entries by name: the result is ordered, and it is a
    /// permutation of the old entries — in particular every name keeps its
    /// summed amount.
    pub fn sort(&mut self)
        ensures
            sorted_by_name(final(self)@),
            final(self)@.to_multiset() == old(self)@.to_multiset(),
            forall|nm: Seq<char>| name_total(final(self)@, nm) == name_total(old(self)@, nm),
            total_amount(final(self)@) == total_amount(old(self)@),
            final(self).saves_on_drop() == old(self).saves_on_drop(),
    {
        broadcast use vstd::seq_lib::group_to_multiset_ensures, vstd::multiset::group_multiset_axioms;

        let ghost iv = self@;
        let mut sorted: Vec<(String, u64)> = Vec::new();
        let mut i: usize = 0;
        proof {
            assert(items_view(sorted@) =~= Seq::<(Seq<char>, u64)>::empty());
            assert(iv.take(0) =~= Seq::<(Seq<char>, u64)>::empty());
        }
        while i < self.items.len()
            invariant
                i <= self.items@.len(),
                iv == items_view(self.items@),
                iv.len() == self.items@.len(),
                self.save_on_drop == old(self).save_on_drop,
                self.items@ == old(self).items@,
                sorted_by_name(items_view(sorted@)),
                items_view(sorted@).to_multiset() == iv.take(i as int).to_multiset(),
                forall|nm: Seq<char>|
                    name_total(items_view(sorted@), nm) == name_total(iv.take(i as int), nm),
                total_amount(items_view(sorted@)) == total_amount(iv.take(i as int)),
            decreases self.items@.len() - i,
        {
            let name = self.items[i].0.clone();
            let amt = self.items[i].1;
            let ghost x = (name@, amt);
            let ghost sv = items_view(sorted@);
            proof {
                assert(x == iv[i as int]);
            }
            let k = insert_position(&sorted, &name);
            proof {
                if k < sorted.len() {
                    lemma_lex_total(sv[k as int].0, x.0);
                    assert(lex_leq(x.0, sv[k as int].0));
                }
            }
            sorted.insert(k, (name, amt));
            proof {
                let sv2 = items_view(sorted@);
                assert(sv2 =~= sv.take(k as int) + seq![x] + sv.skip(k as int));
                assert(sv =~= sv.take(k as int) + sv.skip(k as int));
                // ordering: everything before k is at most x, everything
                // from k on is at least x, and the old order is kept
                assert forall|p: int, q: int| 0 <= p < q < sv2.len() implies lex_leq(
                    (#[trigger] sv2[p]).0,
                    (#[trigger] sv2[q]).0,
                ) by {
                    let ki = k as int;
                    if q > ki {
                        lemma_lex_refl(sv[ki].0);
                        if p == ki {
                            lemma_lex_trans(x.0, sv[ki].0, sv[q - 1].0);
                        } else if p < ki {
                            lemma_lex_trans(x.0, sv[ki].0, sv[q - 1].0);
                            lemma_lex_trans(sv[p].0, x.0, sv[q - 1].0);
                        }
                    }
                }
                // multiset: inserting x anywhere adds exactly x
                lemma_multiset_commutative(sv.take(k as int) + seq![x], sv.skip(k as int));
                lemma_multiset_commutative(sv.take(k as int), sv.skip(k as int));
                assert(sv.take(k as int) + seq![x] =~= sv.take(k as int).push(x));
                sv.take(k as int).to_multiset_ensures();
                assert(sv.take(k as int).push(x).to_multiset() =~= sv.take(
                    k as int,
                ).to_multiset().insert(x));
                assert(iv.take(i + 1) =~= iv.take(i as int).push(x));
                iv.take(i as int).to_multiset_ensures();
                assert(iv.take(i as int).push(x).to_multiset() =~= iv.take(
                    i as int,
                ).to_multiset().insert(x));
                assert(sv2.to_multiset() =~= iv.take(i + 1).to_multiset());
                // totals: concatenation sums, so the insert adds x's amount
                assert forall|nm: Seq<char>| name_total(sv2, nm) == name_total(
                    iv.take(i + 1),
                    nm,
                ) by {
                    lemma_name_total_concat(sv.take(k as int) + seq![x], sv.skip(k as int), nm);
                    lemma_name_total_concat(sv.take(k as int), seq![x], nm);
                    lemma_name_total_concat(sv.take(k as int), sv.skip(k as int), nm);
                    lemma_name_total_concat(iv.take(i as int), seq![x], nm);
                    lemma_name_total_singleton(x, nm);
                    assert(iv.take(i + 1) =~= iv.take(i as int) + seq![x]);
                }
                lemma_total_concat(sv.take(k as int) + seq![x], sv.skip(k as int));
                lemma_total_concat(sv.take(k as int), seq![x]);
                lemma_total_concat(sv.take(k as int), sv.skip(k as int));
                lemma_total_concat(iv.take(i as int), seq![x]);
                lemma_total_singleton(x);
                assert(iv.take(i + 1) =~= iv.take(i as int) + seq![x]);
            }
            i = i + 1;
        }
        proof {
            assert(iv.take(iv.len() as int) =~= iv);
        }
        self.items = sorted;
    }

    /// Sorts, then merges equally named neighbours by summing their
    /// amounts: afterwards the list is ordered by name, neighbouring names
    /// differ, and every name still carries the total amount it had. The
    /// grand total must fit in an amount, since merged entries carry sums.
    #[verifier::rlimit(100)]
    pub fn dedup(&mut self)
        requires
            total_amount(old(self)@) <= u64::MAX,
        ensures
            sorted_by_name(final(self)@),
            forall|i: int|
                0 <= i < final(self)@.len() - 1 ==> (#[trigger] final(self)@[i]).0 != final(
                    self)@[i + 1].0,
            forall|nm: Seq<char>| name_total(final(self)@, nm) == name_total(old(self)@, nm),
            total_amount(final(self)@) == total_amount(old(self)@),
            final(self).saves_on_drop() == old(self).saves_on_drop(),
    {
        self.sort();
        let ghost iv = self@;
        let ghost snap = self.items@;
        let mut out: Vec<(String, u64)> = Vec::new();
        let mut i: usize = 0;
        proof {
            assert(items_view(out@) =~= Seq::<(Seq<char>, u64)>::empty());
            assert(iv.skip(0) =~= iv);
        }
        while i < self.items.len()
            invariant
                i <= self.items@.len(),
                iv == items_view(self.items@),
                iv.len() == self.items@.len(),
                total_amount(iv) <= u64::MAX,
                forall|nm: Seq<char>| name_total(iv, nm) == name_total(old(self)@, nm),
                total_amount(iv) == total_amount(old(self)@),
                sorted_by_name(iv),
                self.save_on_drop == old(self).save_on_drop,
                self.items@ == snap,
                sorted_by_name(items_view(out@)),
                forall|p: int|
                    0 <= p < items_view(out@).len() - 1 ==> (#[trigger] items_view(out@)[p]).0
                        != items_view(out@)[p + 1].0,
                items_view(out@).len() > 0 && i > 0 ==> items_view(out@).last().0 == iv[i - 1].0,
                i > 0 ==> items_view(out@).len() > 0,
                out@.len() <= i,
                forall|nm: Seq<char>|
                    name_total(items_view(out@), nm) + name_total(iv.skip(i as int), nm)
                        == name_total(iv, nm),
                total_amount(items_view(out@)) + total_amount(iv.skip(i as int)) == total_amount(
                    iv,
                ),
            decreases self.items@.len() - i,
        {
            let name = self.items[i].0.clone();
            let amt = self.items[i].1;
            let ghost x = (name@, amt);
            let ghost ov = items_view(out@);
            proof {
                assert(x == iv[i as int]);
                assert(iv.skip(i as int)[0] == iv[i as int]);
                assert(iv.skip(i as int).drop_first() =~= iv.skip(i + 1));
                lemma_total_nonneg(iv.skip(i + 1));
                lemma_total_nonneg(ov);
                assert(total_amount(iv.skip(i as int)) == amt + total_amount(iv.skip(i + 1)));
            }
            let merge = if out.len() > 0 {
                let last_ix = out.len() - 1;
                out[last_ix].0 == name
            } else {
                false
            };
            if merge {
                proof {
                    assert(ov.last().0 == x.0);
                }
                let prev = match out.pop() {
                    Some(p) => p,
                    None => {
                        proof {
                            assert(false);
                        }
                        (name.clone(), 0)
                    },
                };
                proof {
                    assert(ov.last() == (prev.0@, prev.1));
                    lemma_total_nonneg(ov.drop_last());
                    // both summands sit below the grand total, which fits
                    assert(ov =~= ov.drop_last() + seq![ov.last()]);
                    lemma_total_concat(ov.drop_last(), seq![ov.last()]);
                    lemma_total_singleton(ov.last());
                }
                let merged = prev.1 + amt;
                out.push((prev.0, merged));
                proof {
                    let ov2 = items_view(out@);
                    let y = ((ov.last().0, (ov.last().1 + amt) as u64));
                    assert(ov2 =~= ov.drop_last() + seq![y]);
                    assert(forall|p: int| 0 <= p < ov2.len() ==> (#[trigger] ov2[p]).0 == ov[p].0);
                    assert forall|nm: Seq<char>| name_total(ov2, nm) + name_total(
                        iv.skip(i + 1),
                        nm,
                    ) == name_total(iv, nm) by {
                        lemma_name_total_concat(ov.drop_last(), seq![ov.last()], nm);
                        lemma_name_total_concat(ov.drop_last(), seq![y], nm);
                        lemma_name_total_singleton(ov.last(), nm);
                        lemma_name_total_singleton(y, nm);
                    }
                    lemma_total_concat(ov.drop_last(), seq![y]);
                    lemma_total_singleton(y);
                }
            } else {
                out.push((name, amt));
                proof {
                    let ov2 = items_view(out@);
                    assert(ov2 =~= ov + seq![x]);
                    // the new last entry keeps the output sorted: its name
                    // is the latest, hence greatest, input name seen
                    if ov.len() > 0 {
                        assert(i > 0);
                        assert(lex_leq(iv[i - 1].0, iv[i as int].0));
                        assert(lex_leq(ov.last().0, x.0));
                    }
                    assert forall|p: int, q: int| 0 <= p < q < ov2.len() implies lex_leq(
                        (#[trigger] ov2[p]).0,
                        (#[trigger] ov2[q]).0,
                    ) by {
                        if q == ov2.len() - 1 {
                            if p == ov.len() - 1 {
                                lemma_lex_refl(ov[p].0);
                            }
                            lemma_lex_trans(ov[p].0, ov[ov.len() - 1].0, x.0);
                        }
                    }
                    assert forall|nm: Seq<char>| name_total(ov2, nm) + name_total(
                        iv.skip(i + 1),
                        nm,
                    ) == name_total(iv, nm) by {
                        lemma_name_total_concat(ov, seq![x], nm);
                        lemma_name_total_singleton(x, nm);
                    }
                    lemma_total_concat(ov, seq![x]);
                    lemma_total_singleton(x);
                }
            }
            i = i + 1;
        }
        proof {
            assert(iv.skip(iv.len() as int) =~= Seq::<(Seq<char>, u64)>::empty());
        }
        self.items = out;
    }
}

} // verus!
