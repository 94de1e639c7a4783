//! The names of the sstable files.
//!
//! An sstable is kept in a file named by its id, in sixteen hexadecimal
//! digits. While it is rewritten, the new contents stand in a file whose name
//! ends in `-tmp`.
use crate::directory::{increasing, listed_ids, sorted_ids};
use std::collections::BTreeSet;
use vstd::prelude::*;
use vstd::string::{StrSliceExecFns, StringExecFns};

verus! {

/// The hexadecimal digit of a number below sixteen.
pub open spec fn hex_char(digit: int) -> char {
    if digit < 10 {
        ('0' as int + digit) as char
    } else {
        ('a' as int + (digit - 10)) as char
    }
}

/// The last `width` hexadecimal digits of a number.
pub open spec fn hex_digits(n: nat, width: nat) -> Seq<char>
    decreases width,
{
    if width == 0 {
        Seq::empty()
    } else {
        hex_digits(n / 16, (width - 1) as nat).push(hex_char((n % 16) as int))
    }
}

/// The number of hexadecimal digits of a number, without leading zeros.
pub open spec fn hex_width(n: nat) -> nat
    decreases n,
{
    if n < 16 {
        1
    } else {
        1 + hex_width(n / 16)
    }
}

/// The name of the file of an sstable.
pub open spec fn sstable_name(id: u64) -> Seq<char> {
    hex_digits(id as nat, 16)
}

/// What the names of unfinished rewrites end in.
pub open spec fn tmp_suffix() -> Seq<char> {
    seq!['-', 't', 'm', 'p']
}

/// The name of the file in which an sstable is rewritten.
pub open spec fn rewrite_name(id: u64) -> Seq<char> {
    hex_digits(id as nat, hex_width(id as nat)) + tmp_suffix()
}

/// The value of a hexadecimal digit, of either case.
pub open spec fn digit_value(c: char) -> Option<int> {
    if '0' <= c <= '9' {
        Some(c as int - '0' as int)
    } else if 'a' <= c <= 'f' {
        Some(c as int - 'a' as int + 10)
    } else if 'A' <= c <= 'F' {
        Some(c as int - 'A' as int + 10)
    } else {
        None
    }
}

/// The number that a sequence of hexadecimal digits stands for.
pub open spec fn hex_value(digits: Seq<char>) -> Option<int>
    decreases digits.len(),
{
    if digits.len() == 0 {
        Some(0)
    } else {
        match (hex_value(digits.drop_last()), digit_value(digits.last())) {
            (Some(high), Some(low)) => Some(16 * high + low),
            _ => None,
        }
    }
}

/// The id in a file name: hexadecimal digits, at least one, after a plus sign
/// or none, whose number is a `u64`.
pub open spec fn id_in_name(name: Seq<char>) -> Option<u64> {
    let digits = if name.len() > 1 && name[0] == '+' {
        name.skip(1)
    } else {
        name
    };
    if digits.len() == 0 {
        None
    } else {
        match hex_value(digits) {
            Some(n) if n <= u64::MAX => Some(n as u64),
            _ => None,
        }
    }
}

/// The file name holds no id and ends as an unfinished rewrite does.
pub open spec fn is_leftover(name: Seq<char>) -> bool {
    &&& id_in_name(name) is None
    &&& name.len() >= 4
    &&& name.skip(name.len() - 4) == tmp_suffix()
}

/// A digit as a string.
fn hex_digit(digit: u64) -> (r: &'static str)
    requires
        digit < 16,
    ensures
        r@ == seq![hex_char(digit as int)],
{
    proof {
        reveal_strlit("0");
        reveal_strlit("1");
        reveal_strlit("2");
        reveal_strlit("3");
        reveal_strlit("4");
        reveal_strlit("5");
        reveal_strlit("6");
        reveal_strlit("7");
        reveal_strlit("8");
        reveal_strlit("9");
        reveal_strlit("a");
        reveal_strlit("b");
        reveal_strlit("c");
        reveal_strlit("d");
        reveal_strlit("e");
        reveal_strlit("f");
    }
    let r: &'static str = match digit {
        0 => "0",
        1 => "1",
        2 => "2",
        3 => "3",
        4 => "4",
        5 => "5",
        6 => "6",
        7 => "7",
        8 => "8",
        9 => "9",
        10 => "a",
        11 => "b",
        12 => "c",
        13 => "d",
        14 => "e",
        _ => "f",
    };
    assert(r@ =~= seq![hex_char(digit as int)]);
    r
}

/// Appends the last `width` hexadecimal digits of a number to a string.
fn push_hex(s: &mut String, n: u64, width: u64)
    ensures
        final(s)@ == old(s)@ + hex_digits(n as nat, width as nat),
    decreases width,
{
    let ghost before = s@;
    if width > 0 {
        push_hex(s, n / 16, width - 1);
        s.append(hex_digit(n % 16));
    }
    assert(s@ =~= before + hex_digits(n as nat, width as nat));
}

/// The name of the file of an sstable: its id in sixteen hexadecimal digits.
pub fn id_format(id: u64) -> (r: String)
    ensures
        r@ == sstable_name(id),
{
    let mut r = String::new();
    push_hex(&mut r, id, 16);
    assert(r@ =~= sstable_name(id));
    r
}

/// Appends a number to a string, in hexadecimal digits without leading zeros.
fn push_hex_short(s: &mut String, n: u64)
    ensures
        final(s)@ == old(s)@ + hex_digits(n as nat, hex_width(n as nat)),
    decreases n,
{
    let ghost before = s@;
    if n >= 16 {
        push_hex_short(s, n / 16);
    }
    s.append(hex_digit(n % 16));
    proof {
        reveal_with_fuel(hex_digits, 2);
        assert(s@ =~= before + hex_digits(n as nat, hex_width(n as nat)));
    }
}

/// The name of the file in which an sstable is rewritten.
pub fn tmp_format(id: u64) -> (r: String)
    ensures
        r@ == rewrite_name(id),
{
    let mut r = String::new();
    push_hex_short(&mut r, id);
    proof {
        reveal_strlit("-tmp");
        assert("-tmp"@ =~= tmp_suffix());
    }
    r.append("-tmp");
    assert(r@ =~= rewrite_name(id));
    r
}

/// More digits make no smaller number.
proof fn lemma_hex_value_grows(digits: Seq<char>, i: int)
    requires
        0 <= i <= digits.len(),
        hex_value(digits) is Some,
    ensures
        hex_value(digits.take(i)) is Some,
        0 <= hex_value(digits.take(i))->0 <= hex_value(digits)->0,
    decreases digits.len(),
{
    if i == digits.len() {
        assert(digits.take(i) =~= digits);
        if i > 0 {
            lemma_hex_value_grows(digits.drop_last(), i - 1);
        }
    } else {
        lemma_hex_value_grows(digits.drop_last(), i);
        assert(digits.drop_last().take(i) =~= digits.take(i));
    }
}

/// The id in a file name.
pub fn parse_id(name: &str) -> (r: Option<u64>)
    ensures
        r == id_in_name(name@),
{
    let len: usize = name.unicode_len();
    let start: usize = if len > 1 && name.get_char(0) == '+' {
        1
    } else {
        0
    };
    if start == len {
        return None;
    }
    let ghost digits = if start == 1 {
        name@.skip(1)
    } else {
        name@
    };
    let mut value: u64 = 0;
    let mut i: usize = start;
    while i < len
        invariant
            start <= i <= len,
            start <= 1,
            len == name@.len(),
            digits.len() == len - start,
            digits.len() > 0,
            forall|j: int| 0 <= j < digits.len() ==> digits[j] == name@[start + j],
            hex_value(digits.take(i - start)) == Some(value as int),
            id_in_name(name@) == (match hex_value(digits) {
                Some(n) if n <= u64::MAX => Some(n as u64),
                _ => None,
            }),
        decreases len - i,
    {
        let ghost next = digits.take(i - start + 1);
        assert(next.drop_last() =~= digits.take(i - start));
        proof {
            if hex_value(digits) is Some {
                lemma_hex_value_grows(digits, i - start + 1);
            }
        }
        let c: char = name.get_char(i);
        assert(next.last() == c);
        let low: u64 = if '0' <= c && c <= '9' {
            c as u64 - '0' as u64
        } else if 'a' <= c && c <= 'f' {
            c as u64 - 'a' as u64 + 10
        } else if 'A' <= c && c <= 'F' {
            c as u64 - 'A' as u64 + 10
        } else {
            return None;
        };
        if value > (u64::MAX - low) / 16 {
            return None;
        }
        value = 16 * value + low;
        i = i + 1;
    }
    assert(digits.take(len - start) =~= digits);
    Some(value)
}

/// Whether a file name ends as an unfinished rewrite does.
fn ends_in_tmp(name: &str) -> (r: bool)
    ensures
        r == (name@.len() >= 4 && name@.skip(name@.len() - 4) == tmp_suffix()),
{
    let len: usize = name.unicode_len();
    if len < 4 {
        return false;
    }
    let r = name.get_char(len - 4) == '-' && name.get_char(len - 3) == 't' && name.get_char(len - 2)
        == 'm' && name.get_char(len - 1) == 'p';
    proof {
        let tail = name@.skip(name@.len() - 4);
        if r {
            assert(tail =~= tmp_suffix());
        } else if tail == tmp_suffix() {
            assert(tail[0] == '-' && tail[1] == 't' && tail[2] == 'm' && tail[3] == 'p');
        }
    }
    r
}

/// The ids of the sstables in a directory listing.
pub open spec fn ids_in(names: Seq<Seq<char>>) -> Set<u64>
    decreases names.len(),
{
    if names.len() == 0 {
        Set::empty()
    } else {
        let front = ids_in(names.drop_last());
        match id_in_name(names.last()) {
            Some(id) => front.insert(id),
            None => front,
        }
    }
}

/// The names of the unfinished rewrites in a directory listing.
pub open spec fn leftovers_in(names: Seq<Seq<char>>) -> Seq<Seq<char>>
    decreases names.len(),
{
    if names.len() == 0 {
        Seq::empty()
    } else {
        let front = leftovers_in(names.drop_last());
        if is_leftover(names.last()) {
            front.push(names.last())
        } else {
            front
        }
    }
}

/// The characters of each name.
pub open spec fn chars_of(names: Seq<String>) -> Seq<Seq<char>> {
    names.map_values(|name: String| name@)
}

/// The contents of the sstable directory.
pub struct SstableListing {
    /// The ids of the sstables, from the lowest to the highest.
    pub ids: Vec<u64>,
    /// The names of the files to be removed.
    pub leftovers: Vec<String>,
}

/// Sorts the files of the sstable directory: the sstables, the unfinished
/// rewrites, and others, which are left alone.
pub fn list_sstables(names: &Vec<String>) -> (r: SstableListing)
    ensures
        r.ids@ == sorted_ids(ids_in(chars_of(names@))),
        increasing(r.ids@),
        r.ids@.to_set() == ids_in(chars_of(names@)),
        forall|id: u64| #[trigger]
            r.ids@.contains(id) <==> exists|i: int|
                0 <= i < names@.len() && id_in_name((#[trigger] names@[i])@) == Some(id),
        chars_of(r.leftovers@) == chars_of(names@).filter(|name: Seq<char>| is_leftover(name)),
        chars_of(r.leftovers@) == leftovers_in(chars_of(names@)),
{
    broadcast use vstd::std_specs::btree::group_btree_axioms;

    let ghost all = chars_of(names@);
    let mut ids: BTreeSet<u64> = BTreeSet::new();
    let mut leftovers: Vec<String> = Vec::new();
    assert(chars_of(leftovers@) =~= leftovers_in(all.take(0)));
    let mut i: usize = 0;
    while i < names.len()
        invariant
            i <= names.len(),
            all == chars_of(names@),
            ids@ == ids_in(all.take(i as int)),
            chars_of(leftovers@) == leftovers_in(all.take(i as int)),
        decreases names.len() - i,
    {
        assert(all.take(i + 1).drop_last() =~= all.take(i as int));
        let ghost before = leftovers@;
        let name: &str = names[i].as_str();
        match parse_id(name) {
            Some(id) => {
                ids.insert(id);
            },
            None => {
                if ends_in_tmp(name) {
                    leftovers.push(names[i].clone());
                    assert(chars_of(leftovers@) =~= chars_of(before).push(all[i as int]));
                }
            },
        }
        i = i + 1;
    }
    assert(all.take(i as int) =~= all);
    let listed = listed_ids(&ids);
    proof {
        law_leftovers_are_picked_out(all);
        assert forall|id: u64| #[trigger] listed@.contains(id) <==> exists|i: int|
            0 <= i < names@.len() && id_in_name((#[trigger] names@[i])@) == Some(id) by {
            law_ids_are_those_in_the_names(all, id);
            assert(listed@.to_set().contains(id) == ids_in(all).contains(id));
            if ids_in(all).contains(id) {
                let i = choose|i: int| 0 <= i < all.len() && id_in_name(#[trigger] all[i]) == Some(id);
                assert(all[i] == names@[i]@);
            }
            if exists|i: int| 0 <= i < names@.len() && id_in_name((#[trigger] names@[i])@) == Some(id) {
                let i = choose|i: int|
                    0 <= i < names@.len() && id_in_name((#[trigger] names@[i])@) == Some(id);
                assert(all[i] == names@[i]@);
            }
        }
    }
    SstableListing { ids: listed, leftovers }
}

/// The number of numbers with `width` hexadecimal digits.
spec fn pow16(width: nat) -> nat
    decreases width,
{
    if width == 0 {
        1
    } else {
        16 * pow16((width - 1) as nat)
    }
}

/// A number is read back from its digits, if there are enough of them.
proof fn lemma_hex_digits(n: nat, width: nat)
    requires
        n < pow16(width),
    ensures
        hex_digits(n, width).len() == width,
        hex_value(hex_digits(n, width)) == Some(n as int),
        forall|i: int| 0 <= i < width ==> #[trigger] hex_digits(n, width)[i] != '+',
    decreases width,
{
    if width > 0 {
        lemma_hex_digits(n / 16, (width - 1) as nat);
        let digits = hex_digits(n, width);
        assert(digits.drop_last() =~= hex_digits(n / 16, (width - 1) as nat));
        assert(digit_value(hex_char((n % 16) as int)) == Some((n % 16) as int));
        assert forall|i: int| 0 <= i < width implies #[trigger] digits[i] != '+' by {
            if i < width - 1 {
                assert(digits[i] == hex_digits(n / 16, (width - 1) as nat)[i]);
            }
        }
    }
}

/// The name of an sstable has sixteen digits, and its id is read back from it.
pub proof fn law_id_is_read_from_its_name(id: u64)
    ensures
        sstable_name(id).len() == 16,
        id_in_name(sstable_name(id)) == Some(id),
{
    reveal_with_fuel(pow16, 17);
    lemma_hex_digits(id as nat, 16);
}

/// The file in which an sstable is rewritten is never taken for an sstable: it
/// is removed when the directory is listed.
pub proof fn law_rewrite_is_a_leftover(id: u64)
    ensures
        is_leftover(rewrite_name(id)),
{
    let name = rewrite_name(id);
    assert(name.skip(name.len() - 4) =~= tmp_suffix());
    assert(name.last() == 'p');
    assert(digit_value('p') is None);
    assert(name.skip(1).last() == 'p');
}

/// An id is found in a directory listing if and only if some name in it holds
/// the id.
pub proof fn law_ids_are_those_in_the_names(names: Seq<Seq<char>>, id: u64)
    ensures
        ids_in(names).contains(id) <==> exists|i: int|
            0 <= i < names.len() && id_in_name(#[trigger] names[i]) == Some(id),
        ids_in(names).finite(),
    decreases names.len(),
{
    if names.len() > 0 {
        let front = names.drop_last();
        law_ids_are_those_in_the_names(front, id);
        if exists|i: int| 0 <= i < front.len() && id_in_name(#[trigger] front[i]) == Some(id) {
            let i = choose|i: int| 0 <= i < front.len() && id_in_name(#[trigger] front[i]) == Some(id);
            assert(id_in_name(names[i]) == Some(id));
        }
        if exists|i: int| 0 <= i < names.len() && id_in_name(#[trigger] names[i]) == Some(id) {
            let i = choose|i: int| 0 <= i < names.len() && id_in_name(#[trigger] names[i]) == Some(id);
            if i < front.len() {
                assert(id_in_name(front[i]) == Some(id));
            }
        }
        if id_in_name(names.last()) == Some(id) {
            assert(id_in_name(names[names.len() - 1]) == Some(id));
        }
    }
}

/// The leftovers of a directory listing are all names that hold no id and end in
/// `-tmp`, in the order of the listing.
pub proof fn law_leftovers_are_picked_out(names: Seq<Seq<char>>)
    ensures
        leftovers_in(names) == names.filter(|name: Seq<char>| is_leftover(name)),
        forall|name: Seq<char>| #[trigger]
            is_leftover(name) <==> id_in_name(name) is None && name.len() >= 4 && name[name.len() - 4]
                == '-' && name[name.len() - 3] == 't' && name[name.len() - 2] == 'm'
                && name[name.len() - 1] == 'p',
    decreases names.len(),
{
    reveal(Seq::filter);
    if names.len() > 0 {
        law_leftovers_are_picked_out(names.drop_last());
    }
    assert forall|name: Seq<char>| #[trigger]
        is_leftover(name) <==> id_in_name(name) is None && name.len() >= 4 && name[name.len() - 4]
            == '-' && name[name.len() - 3] == 't' && name[name.len() - 2] == 'm' && name[name.len()
            - 1] == 'p' by {
        if name.len() >= 4 {
            let tail = name.skip(name.len() - 4);
            assert(tail[0] == name[name.len() - 4] && tail[1] == name[name.len() - 3] && tail[2]
                == name[name.len() - 2] && tail[3] == name[name.len() - 1]);
            if tail[0] == '-' && tail[1] == 't' && tail[2] == 'm' && tail[3] == 'p' {
                assert(tail =~= tmp_suffix());
            }
        }
    }
}

/// The digits of a lower number come first at the first place where they differ.
proof fn lemma_hex_digits_ordered(a: nat, b: nat, width: nat) -> (place: int)
    requires
        a < b < pow16(width),
    ensures
        0 <= place < width,
        forall|i: int| 0 <= i < place ==> hex_digits(a, width)[i] == hex_digits(b, width)[i],
        hex_digits(a, width)[place] < hex_digits(b, width)[place],
    decreases width,
{
    let p = hex_digits(a / 16, (width - 1) as nat);
    let q = hex_digits(b / 16, (width - 1) as nat);
    lemma_hex_digits(a, width);
    lemma_hex_digits(b, width);
    lemma_hex_digits(a / 16, (width - 1) as nat);
    lemma_hex_digits(b / 16, (width - 1) as nat);
    if a / 16 < b / 16 {
        let place = lemma_hex_digits_ordered(a / 16, b / 16, (width - 1) as nat);
        assert forall|i: int| 0 <= i < place implies hex_digits(a, width)[i] == hex_digits(
            b,
            width,
        )[i] by {
            assert(hex_digits(a, width)[i] == p[i] && hex_digits(b, width)[i] == q[i]);
        }
        place
    } else {
        assert(a / 16 == b / 16);
        assert(a % 16 < b % 16);
        width - 1
    }
}

/// The names of the sstables are ordered as their ids are, and are made of the
/// digits 0 to 9 and a to f.
pub proof fn law_names_are_ordered_as_ids(a: u64, b: u64)
    requires
        a < b,
    ensures
        exists|place: int|
            0 <= place < 16 && (forall|i: int|
                0 <= i < place ==> sstable_name(a)[i] == sstable_name(b)[i]) && #[trigger] sstable_name(
                a,
            )[place] < sstable_name(b)[place],
        forall|i: int|
            0 <= i < 16 ==> '0' <= #[trigger] sstable_name(a)[i] <= '9' || 'a' <= sstable_name(a)[i]
                <= 'f',
{
    reveal_with_fuel(pow16, 17);
    lemma_hex_digits_plain(a as nat, 16);
    let place = lemma_hex_digits_ordered(a as nat, b as nat, 16);
    assert(sstable_name(a)[place] < sstable_name(b)[place]);
}

/// Digits are 0 to 9 and a to f.
proof fn lemma_hex_digits_plain(n: nat, width: nat)
    ensures
        hex_digits(n, width).len() == width,
        forall|i: int|
            0 <= i < width ==> '0' <= #[trigger] hex_digits(n, width)[i] <= '9' || 'a'
                <= hex_digits(n, width)[i] <= 'f',
    decreases width,
{
    if width > 0 {
        lemma_hex_digits_plain(n / 16, (width - 1) as nat);
        let front = hex_digits(n / 16, (width - 1) as nat);
        assert forall|i: int| 0 <= i < width implies '0' <= #[trigger] hex_digits(n, width)[i]
            <= '9' || 'a' <= hex_digits(n, width)[i] <= 'f' by {
            if i < width - 1 {
                assert(hex_digits(n, width)[i] == front[i]);
            }
        }
    }
}

/// The name of a rewrite is the name of the sstable without the zeros at its
/// front, but for the last digit, and with `-tmp` at its end.
pub proof fn law_rewrite_name(id: u64)
    ensures
        ({
            let name = rewrite_name(id);
            let digits = name.take(name.len() - 4);
            let zeros = 16 - digits.len();
            &&& 1 <= digits.len() <= 16
            &&& name.skip(name.len() - 4) == seq!['-', 't', 'm', 'p']
            &&& sstable_name(id) == Seq::new(zeros as nat, |i: int| '0') + digits
            &&& digits.len() > 1 ==> digits[0] != '0'
        }),
{
    let name = rewrite_name(id);
    let width = hex_width(id as nat);
    reveal_with_fuel(pow16, 17);
    lemma_hex_digits_plain(id as nat, width);
    lemma_hex_width(id as nat, 16);
    assert(name.take(name.len() - 4) =~= hex_digits(id as nat, width));
    assert(name.skip(name.len() - 4) =~= seq!['-', 't', 'm', 'p']);
}

/// The digits of a number without zeros at the front.
proof fn lemma_hex_width(n: nat, width: nat)
    requires
        n < pow16(width),
        width > 0,
    ensures
        1 <= hex_width(n) <= width,
        hex_digits(n, width) == Seq::new((width - hex_width(n)) as nat, |i: int| '0') + hex_digits(
            n,
            hex_width(n),
        ),
        hex_width(n) > 1 ==> hex_digits(n, hex_width(n))[0] != '0',
        n > 0 ==> hex_digits(n, hex_width(n))[0] != '0',
    decreases width,
{
    reveal_with_fuel(hex_digits, 2);
    lemma_hex_digits_plain(n, width);
    lemma_hex_digits_plain(n, hex_width(n));
    if n < 16 {
        lemma_zeros((width - 1) as nat);
        assert(hex_digits(n, 1) =~= seq![hex_char(n as int)]);
        assert(hex_digits(n, width) =~= Seq::new((width - 1) as nat, |i: int| '0') + hex_digits(
            n,
            1,
        ));
    } else {
        if width == 1 {
            reveal_with_fuel(pow16, 2);
        }
        lemma_hex_width(n / 16, (width - 1) as nat);
        let w = hex_width(n / 16);
        lemma_hex_digits_plain(n / 16, w);
        assert(hex_digits(n, w + 1) =~= hex_digits(n / 16, w).push(hex_char((n % 16) as int)));
        assert(hex_digits(n, w + 1)[0] == hex_digits(n / 16, w)[0]);
        assert(hex_digits(n, width) =~= Seq::new((width - hex_width(n)) as nat, |i: int| '0')
            + hex_digits(n, hex_width(n)));
    }
}

/// The digits of zero are zeros.
proof fn lemma_zeros(width: nat)
    ensures
        hex_digits(0, width) == Seq::new(width, |i: int| '0'),
    decreases width,
{
    if width > 0 {
        lemma_zeros((width - 1) as nat);
        assert(hex_digits(0, width) =~= Seq::new(width, |i: int| '0'));
    }
}

/// A zero in front of the digits of an id, or a plus sign, does not change it.
pub proof fn law_zeros_and_plus_do_not_count(name: Seq<char>)
    requires
        name.len() > 0,
        name[0] != '+',
    ensures
        id_in_name(seq!['0'] + name) == id_in_name(name),
        id_in_name(seq!['+'] + name) == id_in_name(name),
{
    lemma_zero_in_front(name);
    assert((seq!['+'] + name).skip(1) =~= name);
}

/// A zero in front does not change a number.
proof fn lemma_zero_in_front(digits: Seq<char>)
    ensures
        hex_value(seq!['0'] + digits) == hex_value(digits),
    decreases digits.len(),
{
    let longer = seq!['0'] + digits;
    if digits.len() == 0 {
        reveal_with_fuel(hex_value, 2);
        assert(longer.drop_last() =~= Seq::<char>::empty());
    } else {
        lemma_zero_in_front(digits.drop_last());
        assert(longer.drop_last() =~= seq!['0'] + digits.drop_last());
    }
}

/// A name with any other character holds no id, wherever that stands.
pub proof fn law_other_characters_hold_no_id(name: Seq<char>, i: int)
    requires
        0 <= i < name.len(),
        !('0' <= name[i] <= '9'),
        !('a' <= name[i] <= 'f'),
        !('A' <= name[i] <= 'F'),
        i == 0 ==> name[i] != '+',
    ensures
        id_in_name(name) is None,
{
    let digits = if name.len() > 1 && name[0] == '+' {
        name.skip(1)
    } else {
        name
    };
    let j = if name.len() > 1 && name[0] == '+' {
        i - 1
    } else {
        i
    };
    assert(digits[j] == name[i]);
    lemma_no_number(digits, j);
}

/// Digits with another character among them are no number.
proof fn lemma_no_number(digits: Seq<char>, i: int)
    requires
        0 <= i < digits.len(),
        digit_value(digits[i]) is None,
    ensures
        hex_value(digits) is None,
    decreases digits.len(),
{
    if i < digits.len() - 1 {
        lemma_no_number(digits.drop_last(), i);
    }
}

/// Large and small letters are the same digits.
pub proof fn law_case_does_not_count(name: Seq<char>, i: int, c: char, d: char)
    requires
        0 <= i < name.len(),
        'a' <= c <= 'f',
        d as int == c as int - 0x20,
    ensures
        id_in_name(name.update(i, c)) == id_in_name(name.update(i, d)),
{
    let x = name.update(i, c);
    let y = name.update(i, d);
    if name.len() > 1 && x[0] == '+' {
        lemma_case(x.skip(1), y.skip(1), i - 1);
    } else {
        lemma_case(x, y, i);
    }
}

/// Digits that differ in the case of one letter are the same number.
proof fn lemma_case(a: Seq<char>, b: Seq<char>, i: int)
    requires
        a.len() == b.len(),
        0 <= i < a.len(),
        digit_value(a[i]) == digit_value(b[i]),
        forall|j: int| 0 <= j < a.len() && j != i ==> a[j] == b[j],
    ensures
        hex_value(a) == hex_value(b),
    decreases a.len(),
{
    if i == a.len() - 1 {
        assert(a.drop_last() =~= b.drop_last());
    } else {
        lemma_case(a.drop_last(), b.drop_last(), i);
    }
}

/// The character is a hexadecimal digit of either case, and `d` is its value.
pub open spec fn is_digit(c: char, d: int) -> bool {
    ||| '0' <= c <= '9' && d == c as int - 0x30
    ||| 'a' <= c <= 'f' && d == c as int - 0x61 + 10
    ||| 'A' <= c <= 'F' && d == c as int - 0x41 + 10
}

/// One more digit makes the id sixteen times as high and adds the digit; an id
/// that gets too high for 64 bits is none, and a name without an id does not get
/// one.
pub proof fn law_one_more_digit(name: Seq<char>, c: char, d: int)
    requires
        name.len() > 0,
        name.len() == 1 ==> name[0] != '+',
        is_digit(c, d),
    ensures
        id_in_name(name.push(c)) == match id_in_name(name) {
            Some(id) if 16 * id + d <= u64::MAX => Some((16 * id + d) as u64),
            _ => None,
        },
{
    let longer = name.push(c);
    let digits = if name[0] == '+' {
        name.skip(1)
    } else {
        name
    };
    assert(longer[0] == name[0]);
    if name[0] == '+' {
        assert(longer.skip(1) =~= digits.push(c));
    }
    assert(digits.push(c).drop_last() =~= digits);
    lemma_hex_value_is_natural(digits);
    assert(hex_value(digits.push(c)) == match hex_value(digits) {
        Some(n) => Some(16 * n + d),
        None => None,
    });
}

/// The number of some digits is not negative.
proof fn lemma_hex_value_is_natural(digits: Seq<char>)
    ensures
        hex_value(digits) matches Some(n) ==> n >= 0,
    decreases digits.len(),
{
    if digits.len() > 0 {
        lemma_hex_value_is_natural(digits.drop_last());
    }
}

/// A single digit is an id; no character, or a plus sign alone, is none.
pub proof fn law_a_single_digit(c: char, d: int)
    requires
        is_digit(c, d),
    ensures
        id_in_name(seq![c]) == Some(d as u64),
        id_in_name(seq!['+']) is None,
        id_in_name(Seq::empty()) is None,
{
    reveal_with_fuel(hex_value, 3);
    assert(seq![c].drop_last() =~= Seq::<char>::empty());
    assert(seq!['+'].drop_last() =~= Seq::<char>::empty());
}

} // verus!
