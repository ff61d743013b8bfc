//! The files of a data directory: what tables are called, and which tables a
//! directory holds.
//!
//! A table file is called by its id, in decimal with at least six digits, and
//! `.sst`. It is written under that name with `.tmp` behind it and renamed when
//! it is complete. A `.sst.tmp` file that is found in the directory is therefore
//! the remainder of a write that was cut short, and can be discarded.

use vstd::prelude::*;

verus! {

/// The digit for `d`.
pub open spec fn digit_char(d: int) -> char {
    ('0' as int + d) as char
}

/// `n` in decimal.
pub open spec fn digits(n: nat) -> Seq<char>
    decreases n,
{
    if n < 10 {
        seq![digit_char(n as int)]
    } else {
        digits(n / 10).push(digit_char((n % 10) as int))
    }
}

/// As many zeros.
pub open spec fn zeros(n: int) -> Seq<char> {
    Seq::new(
        if n > 0 {
            n as nat
        } else {
            0
        },
        |i: int| '0',
    )
}

/// `n` in decimal, with zeros in front where it has fewer than six digits.
pub open spec fn padded(n: nat) -> Seq<char> {
    zeros(6 - digits(n).len()) + digits(n)
}

/// How the name of a table file ends.
pub open spec fn table_suffix() -> Seq<char> {
    seq!['.', 's', 's', 't']
}

/// How the name of a file ends that is not complete yet.
pub open spec fn leftover_suffix() -> Seq<char> {
    seq!['.', 's', 's', 't', '.', 't', 'm', 'p']
}

/// The name of the file for the table with this id.
pub open spec fn file_name_of(id: u64) -> Seq<char> {
    padded(id as nat) + table_suffix()
}

/// The number that some digits stand for, none standing for 0. `None` where a
/// character is not a digit.
pub open spec fn number_of(s: Seq<char>) -> Option<int>
    decreases s.len(),
{
    if s.len() == 0 {
        Some(0)
    } else {
        let d = s.last() as int - '0' as int;
        match number_of(s.drop_last()) {
            Some(v) if 0 <= d <= 9 => Some(10 * v + d),
            _ => None,
        }
    }
}

/// The id that is written as `s`: decimal digits, with a plus sign in front
/// perhaps, that stand for a 64-bit number.
pub open spec fn parsed_id(s: Seq<char>) -> Option<u64> {
    let t = if s.len() > 0 && s[0] == '+' {
        s.skip(1)
    } else {
        s
    };
    if t.len() == 0 {
        None
    } else {
        match number_of(t) {
            Some(v) if v <= u64::MAX => Some(v as u64),
            _ => None,
        }
    }
}

/// The end of `name` is `suffix`.
pub open spec fn ends_with(name: Seq<char>, suffix: Seq<char>) -> bool {
    name.len() >= suffix.len() && name.skip(name.len() - suffix.len()) == suffix
}

/// What a file in the directory is.
#[derive(Clone, Copy, Debug, PartialEq, Eq, Structural)]
pub enum FileKind {
    /// The table with this id.
    Table(u64),
    /// The remainder of a write that was cut short.
    Leftover,
    /// Nothing that concerns the store.
    Other,
}

/// What the file of this name is.
pub open spec fn kind_of(name: Seq<char>) -> FileKind {
    let id = if ends_with(name, table_suffix()) {
        parsed_id(name.take(name.len() - 4))
    } else {
        None
    };
    match id {
        Some(id) => FileKind::Table(id),
        None => if ends_with(name, leftover_suffix()) {
            FileKind::Leftover
        } else {
            FileKind::Other
        },
    }
}

/// `s` with `x` behind all tables whose id is not greater.
pub open spec fn insert_by_id(s: Seq<(u64, Seq<char>)>, x: (u64, Seq<char>)) -> Seq<
    (u64, Seq<char>),
>
    decreases s.len(),
{
    if s.len() == 0 || s.last().0 <= x.0 {
        s.push(x)
    } else {
        insert_by_id(s.drop_last(), x).push(s.last())
    }
}

/// The tables among some files, each with its id, by ascending id. Tables with
/// the same id stay in the order of the files.
pub open spec fn tables_found(names: Seq<Seq<char>>) -> Seq<(u64, Seq<char>)>
    decreases names.len(),
{
    if names.len() == 0 {
        Seq::empty()
    } else {
        let before = tables_found(names.drop_last());
        match kind_of(names.last()) {
            FileKind::Table(id) => insert_by_id(before, (id, names.last())),
            _ => before,
        }
    }
}

/// The remainders among some files.
pub open spec fn leftovers_found(names: Seq<Seq<char>>) -> Seq<Seq<char>>
    decreases names.len(),
{
    if names.len() == 0 {
        Seq::empty()
    } else {
        let before = leftovers_found(names.drop_last());
        match kind_of(names.last()) {
            FileKind::Leftover => before.push(names.last()),
            _ => before,
        }
    }
}

/// The ids ascend, each being greater than the one before.
pub open spec fn ids_ascend(s: Seq<(u64, Seq<char>)>) -> bool {
    forall|i: int, j: int| 0 <= i < j < s.len() ==> (#[trigger] s[i]).0 < (#[trigger] s[j]).0
}

/// The ids do not descend.
pub open spec fn ids_sorted(s: Seq<(u64, Seq<char>)>) -> bool {
    forall|i: int, j: int| 0 <= i < j < s.len() ==> (#[trigger] s[i]).0 <= (#[trigger] s[j]).0
}

/// The digits of a number stand for it.
proof fn lemma_number_of_digits(n: nat)
    ensures
        number_of(digits(n)) == Some(n as int),
        digits(n).len() >= 1,
        forall|i: int| 0 <= i < digits(n).len() ==> '0' <= #[trigger] digits(n)[i] <= '9',
    decreases n,
{
    if n < 10 {
        assert(digits(n).drop_last() =~= Seq::empty());
        assert(number_of(Seq::<char>::empty()) == Some(0int));
    } else {
        lemma_number_of_digits(n / 10);
        assert(digits(n).drop_last() =~= digits(n / 10));
        let d = digits(n);
        let e = digits(n / 10);
        assert forall|i: int| 0 <= i < d.len() implies '0' <= #[trigger] d[i] <= '9' by {
            if i < e.len() {
                assert(d[i] == e[i]);
            }
        }
    }
}

/// Zeros in front change nothing.
proof fn lemma_number_of_padded(z: int, s: Seq<char>)
    requires
        z >= 0,
    ensures
        number_of(zeros(z) + s) == number_of(s),
    decreases s.len(), z,
{
    if s.len() > 0 {
        lemma_number_of_padded(z, s.drop_last());
        assert((zeros(z) + s).drop_last() =~= zeros(z) + s.drop_last());
    } else if z > 0 {
        lemma_number_of_padded(z - 1, s);
        assert((zeros(z) + s).drop_last() =~= zeros(z - 1) + s);
    } else {
        assert(zeros(z) + s =~= s);
    }
}

/// The name of a table's file is read back as its id.
pub proof fn lemma_file_name_is_read_back(id: u64)
    ensures
        kind_of(file_name_of(id)) == FileKind::Table(id),
{
    let name = file_name_of(id);
    let stem = padded(id as nat);
    let ds = digits(id as nat);
    lemma_number_of_digits(id as nat);
    assert(name.skip(name.len() - 4) =~= table_suffix());
    assert(name.take(name.len() - 4) =~= stem);
    let z = if 6 - ds.len() > 0 {
        6 - ds.len()
    } else {
        0
    };
    assert(zeros(6 - ds.len()) =~= zeros(z));
    lemma_number_of_padded(z, ds);
    assert('0' <= stem[0] <= '9') by {
        if z == 0 {
            assert(stem[0] == ds[0]);
        }
    }
}

/// Numbers are written in decimal: one more digit behind a number stands for ten
/// times the number and the digit.
pub proof fn lemma_decimal(n: nat, d: nat)
    requires
        d < 10,
    ensures
        digits(d) == seq![('0' as int + d) as char],
        n > 0 ==> digits(10 * n + d) == digits(n).push(('0' as int + d) as char),
{
}

/// The name of a table's file is its id in decimal, with zeros in front up to six
/// digits, and `.sst`.
pub proof fn lemma_file_name(id: u64)
    ensures
        ({
            let n = digits(id as nat).len() as int;
            let z = if n < 6 {
                6 - n
            } else {
                0
            };
            file_name_of(id) == Seq::new(z as nat, |i: int| '0') + digits(id as nat) + seq![
                '.',
                's',
                's',
                't',
            ]
        }),
{
    let n = digits(id as nat).len() as int;
    let z = if n < 6 {
        6 - n
    } else {
        0
    };
    assert(zeros(6 - n) =~= Seq::new(z as nat, |i: int| '0'));
    assert(file_name_of(id) =~= Seq::new(z as nat, |i: int| '0') + digits(id as nat) + seq![
        '.',
        's',
        's',
        't',
    ]);
}

/// A file whose name is a number in decimal and `.sst` is the table with that id,
/// with any zeros and with a plus sign in front or without. A number that takes more
/// than 64 bits is no id.
pub proof fn lemma_numbered_files_are_tables(z: int, n: nat)
    requires
        z >= 0,
    ensures
        ({
            let name = zeros(z) + digits(n) + seq!['.', 's', 's', 't'];
            let kind = if n <= u64::MAX {
                FileKind::Table(n as u64)
            } else {
                FileKind::Other
            };
            &&& kind_of(name) == kind
            &&& kind_of(seq!['+'] + name) == kind
        }),
{
    let stem = zeros(z) + digits(n);
    let name = stem + seq!['.', 's', 's', 't'];
    let plus = seq!['+'] + name;
    lemma_number_of_digits(n);
    lemma_number_of_padded(z, digits(n));
    assert('0' <= stem[0] <= '9') by {
        if z == 0 {
            assert(stem[0] == digits(n)[0]);
        }
    }
    assert(name.skip(name.len() - 4) =~= table_suffix());
    assert(name.take(name.len() - 4) =~= stem);
    assert(plus.skip(plus.len() - 4) =~= table_suffix());
    assert(plus.take(plus.len() - 4) =~= seq!['+'] + stem);
    assert((seq!['+'] + stem).skip(1) =~= stem);
    assert(name[name.len() - 1] == 't');
    if ends_with(name, leftover_suffix()) {
        assert(name.skip(name.len() - 8)[7] == 'p');
    }
    if ends_with(plus, leftover_suffix()) {
        assert(plus.skip(plus.len() - 8)[7] == 'p');
    }
}

/// The number that digits stand for: one more digit counts for itself, and what is
/// before it for ten times as much. Nothing else is a number.
pub proof fn lemma_number_of_next_digit(s: Seq<char>, c: char)
    ensures
        number_of(Seq::empty()) == Some(0int),
        number_of(s.push(c)) == (match number_of(s) {
            Some(v) if '0' <= c <= '9' => Some(10 * v + (c as int - '0' as int)),
            _ => None,
        }),
{
    assert(s.push(c).drop_last() =~= s);
}

/// Digits stand for no negative number.
proof fn lemma_number_is_not_negative(s: Seq<char>)
    ensures
        number_of(s) matches Some(v) ==> v >= 0,
    decreases s.len(),
{
    if s.len() > 0 {
        lemma_number_is_not_negative(s.drop_last());
    }
}

/// Only such files are tables: the name ends in `.sst`, and what is before that is a
/// number of at most 64 bits, a plus sign in front left aside. Of the others those
/// are leftovers whose names end in `.sst.tmp`.
pub proof fn lemma_other_files_are_not_tables(name: Seq<char>)
    ensures
        kind_of(name) matches FileKind::Table(id) ==> {
            let stem = name.take(name.len() - 4);
            let number = if stem[0] == '+' {
                stem.skip(1)
            } else {
                stem
            };
            &&& name.len() > 4
            &&& name.skip(name.len() - 4) == seq!['.', 's', 's', 't']
            &&& number.len() > 0
            &&& number_of(number) == Some(id as int)
        },
        kind_of(name) == FileKind::Leftover <==> name.len() >= 8 && name.skip(name.len() - 8)
            == seq!['.', 's', 's', 't', '.', 't', 'm', 'p'],
{
    if let FileKind::Table(_) = kind_of(name) {
        let stem = name.take(name.len() - 4);
        lemma_number_is_not_negative(stem);
        lemma_number_is_not_negative(stem.skip(1));
    }
    if name.len() >= 8 && name.skip(name.len() - 8) == leftover_suffix() {
        assert(name.skip(name.len() - 8)[7] == 'p');
        if ends_with(name, table_suffix()) {
            assert(name.skip(name.len() - 4)[3] == 't');
        }
    }
}

/// Different tables have different files.
pub proof fn lemma_file_names_differ(a: u64, b: u64)
    requires
        a != b,
    ensures
        file_name_of(a) != file_name_of(b),
{
    lemma_file_name_is_read_back(a);
    lemma_file_name_is_read_back(b);
}

/// Where an entry is put among sorted ones.
proof fn lemma_insert_by_id(s: Seq<(u64, Seq<char>)>, x: (u64, Seq<char>)) -> (p: int)
    requires
        ids_sorted(s),
    ensures
        0 <= p <= s.len(),
        insert_by_id(s, x) == s.insert(p, x),
        forall|i: int| p <= i < s.len() ==> (#[trigger] s[i]).0 > x.0,
        ids_sorted(insert_by_id(s, x)),
        insert_by_id(s, x).to_set() == s.to_set().insert(x),
        s.no_duplicates() && !s.contains(x) ==> insert_by_id(s, x).no_duplicates(),
    decreases s.len(),
{
    let n = insert_by_id(s, x);
    let p = if s.len() == 0 || s.last().0 <= x.0 {
        assert(n =~= s.insert(s.len() as int, x));
        s.len() as int
    } else {
        let init = s.drop_last();
        let l = s.len() - 1;
        assert forall|i: int, j: int| 0 <= i < j < init.len() implies (#[trigger] init[i]).0 <= (
        #[trigger] init[j]).0 by {
            assert(s[i].0 <= s[j].0);
        }
        let p = lemma_insert_by_id(init, x);
        assert(n =~= s.insert(p, x));
        assert forall|i: int| p <= i < s.len() implies (#[trigger] s[i]).0 > x.0 by {
            if i < l {
                assert(init[i].0 > x.0);
            }
        }
        let m = insert_by_id(init, x);
        assert forall|i: int, j: int| 0 <= i < j < n.len() implies (#[trigger] n[i]).0 <= (
        #[trigger] n[j]).0 by {
            if j < m.len() {
                assert(m[i].0 <= m[j].0);
            } else {
                assert(m[i] == x || m[i] == s[if i < p {
                    i
                } else {
                    i - 1
                }]);
            }
        }
        p
    };
    assert(n =~= s.insert(p, x));
    assert(n[p] == x);
    assert forall|y: (u64, Seq<char>)| n.to_set().contains(y) == s.to_set().insert(x).contains(
        y,
    ) by {
        if s.contains(y) {
            let i = choose|i: int| 0 <= i < s.len() && s[i] == y;
            let j = if i < p {
                i
            } else {
                i + 1
            };
            assert(n[j] == y);
        }
        if n.contains(y) && y != x {
            let i = choose|i: int| 0 <= i < n.len() && n[i] == y;
            let j = if i < p {
                i
            } else {
                i - 1
            };
            assert(s[j] == y);
        }
    }
    assert(n.to_set() =~= s.to_set().insert(x));
    if s.no_duplicates() && !s.contains(x) {
        assert forall|i: int, j: int| 0 <= i < n.len() && 0 <= j < n.len() && i != j implies n[i]
            != n[j] by {
            let a = if i < p {
                i
            } else {
                i - 1
            };
            let b = if j < p {
                j
            } else {
                j - 1
            };
            if i != p && j != p {
                assert(s[a] != s[b]);
            } else if i == p {
                assert(s[b] != x);
            } else {
                assert(s[a] != x);
            }
        }
    }
    p
}

/// The tables that are found come by ascending id. They are exactly those among
/// the files, and each file counts once.
pub proof fn lemma_tables_found(names: Seq<Seq<char>>)
    ensures
        ids_sorted(tables_found(names)),
        forall|x: (u64, Seq<char>)| #[trigger]
            tables_found(names).contains(x) <==> names.contains(x.1) && kind_of(x.1)
                == FileKind::Table(x.0),
        names.no_duplicates() ==> tables_found(names).no_duplicates(),
    decreases names.len(),
{
    if names.len() > 0 {
        let init = names.drop_last();
        let name = names.last();
        lemma_tables_found(init);
        assert(names =~= init.push(name));
        let before = tables_found(init);
        assert forall|n: Seq<char>| names.contains(n) <==> init.contains(n) || n == name by {
            if init.contains(n) {
                let i = choose|i: int| 0 <= i < init.len() && init[i] == n;
                assert(names[i] == n);
            }
            assert(names[names.len() - 1] == name);
            if names.contains(n) && n != name {
                let i = choose|i: int| 0 <= i < names.len() && names[i] == n;
                assert(init[i] == n);
            }
        }
        if names.no_duplicates() {
            assert(init.no_duplicates());
            if init.contains(name) {
                let i = choose|i: int| 0 <= i < init.len() && init[i] == name;
                assert(names[i] == names[names.len() - 1]);
            }
        }
        if let FileKind::Table(id) = kind_of(name) {
            let x = (id, name);
            let p = lemma_insert_by_id(before, x);
            assert forall|y: (u64, Seq<char>)| #[trigger]
                tables_found(names).contains(y) <==> names.contains(y.1) && kind_of(y.1)
                    == FileKind::Table(y.0) by {
                assert(tables_found(names).to_set().contains(y) <==> before.to_set().insert(
                    x,
                ).contains(y));
                assert(tables_found(names).contains(y) <==> before.contains(y) || y == x);
            }
        }
    }
}

/// Files with the same id stay in the order in which they were listed.
pub proof fn lemma_same_id_stays_in_order(names: Seq<Seq<char>>, i: int, j: int, id: u64)
    requires
        0 <= i < j < names.len(),
        kind_of(names[i]) == FileKind::Table(id),
        kind_of(names[j]) == FileKind::Table(id),
    ensures
        exists|p: int, q: int|
            {
                &&& 0 <= p < q < tables_found(names).len()
                &&& #[trigger] tables_found(names)[p] == (id, names[i])
                &&& #[trigger] tables_found(names)[q] == (id, names[j])
            },
    decreases names.len(),
{
    let init = names.drop_last();
    let l = names.len() - 1;
    let before = tables_found(init);
    let after = tables_found(names);
    lemma_tables_found(init);
    if j < l {
        assert(init[i] == names[i] && init[j] == names[j]);
        lemma_same_id_stays_in_order(init, i, j, id);
        let (p, q) = choose|p: int, q: int|
            {
                &&& 0 <= p < q < before.len()
                &&& #[trigger] before[p] == (id, init[i])
                &&& #[trigger] before[q] == (id, init[j])
            };
        if let FileKind::Table(other) = kind_of(names.last()) {
            let at = lemma_insert_by_id(before, (other, names.last()));
            let p2 = if p < at {
                p
            } else {
                p + 1
            };
            let q2 = if q < at {
                q
            } else {
                q + 1
            };
            assert(after[p2] == (id, names[i]));
            assert(after[q2] == (id, names[j]));
        } else {
            assert(after[p] == (id, names[i]));
            assert(after[q] == (id, names[j]));
        }
    } else {
        let x = (id, names.last());
        assert(names[l] == names.last());
        assert(init[i] == names[i]);
        assert(init.contains(names[i]));
        assert(before.contains((id, names[i])));
        let p = choose|p: int| 0 <= p < before.len() && before[p] == (id, names[i]);
        let at = lemma_insert_by_id(before, x);
        if at <= p {
            assert(before[p].0 > x.0);
        }
        assert(after[p] == (id, names[i]));
        assert(after[at] == (id, names[j]));
    }
}

/// The remainders that are found are exactly the files whose names end in
/// `.sst.tmp`, and each file counts once.
pub proof fn lemma_leftovers_found(names: Seq<Seq<char>>)
    ensures
        forall|name: Seq<char>| #[trigger]
            leftovers_found(names).contains(name) <==> names.contains(name) && ends_with(
                name,
                leftover_suffix(),
            ),
        names.no_duplicates() ==> leftovers_found(names).no_duplicates(),
    decreases names.len(),
{
    if names.len() > 0 {
        let init = names.drop_last();
        let last = names.last();
        let before = leftovers_found(init);
        let found = leftovers_found(names);
        lemma_leftovers_found(init);
        lemma_leftover_kind(last);
        assert(names =~= init.push(last));
        assert forall|name: Seq<char>| #[trigger]
            found.contains(name) <==> names.contains(name) && ends_with(
                name,
                leftover_suffix(),
            ) by {
            lemma_push_contains(init, last, name);
            lemma_push_contains(before, last, name);
            assert(before.contains(name) <==> init.contains(name) && ends_with(
                name,
                leftover_suffix(),
            ));
        }
        if names.no_duplicates() {
            assert(init.no_duplicates());
            if before.contains(last) {
                let i = choose|i: int| 0 <= i < init.len() && init[i] == last;
                assert(names[i] == names[names.len() - 1]);
            }
        }
    }
}

/// What a sequence with one item more contains.
proof fn lemma_push_contains(s: Seq<Seq<char>>, last: Seq<char>, name: Seq<char>)
    ensures
        s.push(last).contains(name) <==> s.contains(name) || name == last,
{
    let n = s.push(last);
    if s.contains(name) {
        let i = choose|i: int| 0 <= i < s.len() && s[i] == name;
        assert(n[i] == name);
    }
    assert(n[s.len() as int] == last);
    if n.contains(name) && name != last {
        let i = choose|i: int| 0 <= i < n.len() && n[i] == name;
        assert(s[i] == name);
    }
}

/// A name that ends in `.sst.tmp` is not that of a table.
proof fn lemma_leftover_kind(name: Seq<char>)
    ensures
        kind_of(name) == FileKind::Leftover <==> ends_with(name, leftover_suffix()),
{
    if ends_with(name, leftover_suffix()) && ends_with(name, table_suffix()) {
        let l = name.len();
        assert(name.skip(l - 8)[7] == 'p');
        assert(name.skip(l - 4)[3] == 't');
        assert(name[l - 1] == 'p' && name[l - 1] == 't');
    }
}

/// Which tables a directory holds does not depend on the order in which its
/// files are listed, as long as no two tables have the same id.
pub proof fn lemma_tables_found_are(names: Seq<Seq<char>>, tables: Seq<(u64, Seq<char>)>)
    requires
        names.no_duplicates(),
        ids_ascend(tables),
        forall|x: (u64, Seq<char>)| #[trigger]
            tables.contains(x) <==> names.contains(x.1) && kind_of(x.1) == FileKind::Table(x.0),
    ensures
        tables_found(names) == tables,
{
    lemma_tables_found(names);
    let found = tables_found(names);
    assert forall|x: (u64, Seq<char>)| #[trigger] found.contains(x) <==> tables.contains(x) by {}
    lemma_ascending_is_unique(found, tables);
}

/// Two sorted sequences of the same tables are the same.
proof fn lemma_ascending_is_unique(a: Seq<(u64, Seq<char>)>, b: Seq<(u64, Seq<char>)>)
    requires
        ids_sorted(a),
        a.no_duplicates(),
        ids_ascend(b),
        forall|x: (u64, Seq<char>)| #[trigger] a.contains(x) <==> b.contains(x),
    ensures
        a == b,
    decreases b.len(),
{
    if b.len() == 0 {
        if a.len() > 0 {
            assert(a.contains(a[0]));
        }
        assert(a =~= b);
    } else {
        let l = b.len() - 1;
        assert(b.contains(b[l]));
        assert(a.contains(b[l]));
        let m = a.len() - 1;
        assert(a.contains(a[m]));
        assert(b.contains(a[m]));
        let i = choose|i: int| 0 <= i < a.len() && a[i] == b[l];
        let j = choose|j: int| 0 <= j < b.len() && b[j] == a[m];
        if i < m {
            assert(a[i].0 <= a[m].0);
            if j < l {
                assert(b[j].0 < b[l].0);
            }
            assert(a[i] != a[m]);
        }
        assert(a[m] == b[l]);
        let x = a.drop_last();
        let y = b.drop_last();
        assert forall|i: int, j: int| 0 <= i < j < x.len() implies (#[trigger] x[i]).0 <= (
        #[trigger] x[j]).0 by {
            assert(a[i].0 <= a[j].0);
        }
        assert forall|i: int, j: int| 0 <= i < j < y.len() implies (#[trigger] y[i]).0 < (
        #[trigger] y[j]).0 by {
            assert(b[i].0 < b[j].0);
        }
        assert forall|t: (u64, Seq<char>)| #[trigger] x.contains(t) <==> y.contains(t) by {
            if x.contains(t) {
                let i = choose|i: int| 0 <= i < x.len() && x[i] == t;
                assert(a[i] == t && a[i] != a[m]);
                assert(a.contains(t));
                assert(b.contains(t));
                let j = choose|j: int| 0 <= j < b.len() && b[j] == t;
                assert(y[j] == t);
            }
            if y.contains(t) {
                let j = choose|j: int| 0 <= j < y.len() && y[j] == t;
                assert(b[j] == t && b[j].0 < b[l].0);
                assert(b.contains(t) && a.contains(t));
                let i = choose|i: int| 0 <= i < a.len() && a[i] == t;
                assert(x[i] == t);
            }
        }
        lemma_ascending_is_unique(x, y);
        assert(a =~= x.push(a[m]));
        assert(b =~= y.push(b[l]));
    }
}

/// What comes behind some digits only makes the number greater.
proof fn lemma_number_of_front(s: Seq<char>, n: int)
    requires
        0 <= n <= s.len(),
        number_of(s) is Some,
    ensures
        number_of(s.take(n)) is Some,
        0 <= number_of(s.take(n)).unwrap() <= number_of(s).unwrap(),
    decreases s.len(),
{
    if n < s.len() {
        lemma_number_of_front(s.drop_last(), n);
        assert(s.drop_last().take(n) =~= s.take(n));
    } else {
        assert(s.take(n) =~= s);
        if s.len() > 0 {
            lemma_number_of_front(s.drop_last(), s.len() - 1);
            assert(s.drop_last().take(s.len() - 1) =~= s.drop_last());
        }
    }
}

/// Reads the id in the characters of `name` from `from` up to `to`.
fn parse_id(name: &str, from: usize, to: usize) -> (r: Option<u64>)
    requires
        from <= to <= name@.len(),
    ensures
        r == parsed_id(name@.subrange(from as int, to as int)),
{
    let ghost s = name@.subrange(from as int, to as int);
    let mut start: usize = from;
    if start < to && name.get_char(start) == '+' {
        start = start + 1;
    }
    let ghost t = name@.subrange(start as int, to as int);
    assert(start > from ==> s.skip(1) =~= t);
    assert(start == from ==> s =~= t);
    if start == to {
        return None;
    }
    let mut value: u64 = 0;
    let mut i: usize = start;
    assert(t.take(0) =~= Seq::empty());
    while i < to
        invariant
            from <= start <= i <= to <= name@.len(),
            s == name@.subrange(from as int, to as int),
            t == name@.subrange(start as int, to as int),
            t.len() > 0,
            parsed_id(s) == (match number_of(t) {
                Some(v) if v <= u64::MAX => Some(v as u64),
                _ => None,
            }),
            number_of(t.take(i - start)) == Some(value as int),
        decreases to - i,
    {
        let c: char = name.get_char(i);
        let ghost part = t.take(i - start + 1);
        proof {
            assert(part.drop_last() =~= t.take(i - start));
            if number_of(t) is Some {
                lemma_number_of_front(t, i - start + 1);
            }
        }
        if c < '0' || '9' < c {
            return None;
        }
        let d: u64 = (c as u32 - '0' as u32) as u64;
        assert(number_of(part) == Some(10 * value + d));
        value = match value.checked_mul(10) {
            None => {
                return None;
            },
            Some(tens) => match tens.checked_add(d) {
                None => {
                    return None;
                },
                Some(v) => v,
            },
        };
        i = i + 1;
    }
    assert(t.take(i - start) =~= t);
    Some(value)
}

/// Whether `name` ends with `suffix`.
fn has_suffix(name: &str, suffix: &str) -> (r: bool)
    ensures
        r == ends_with(name@, suffix@),
{
    let n: usize = name.unicode_len();
    let m: usize = suffix.unicode_len();
    if n < m {
        return false;
    }
    let ghost end = name@.skip(n - m);
    let mut i: usize = 0;
    while i < m
        invariant
            i <= m,
            m <= n,
            n == name@.len(),
            m == suffix@.len(),
            end == name@.skip(n - m),
            end.take(i as int) == suffix@.take(i as int),
        decreases m - i,
    {
        if name.get_char(n - m + i) != suffix.get_char(i) {
            assert(end[i as int] != suffix@[i as int]);
            return false;
        }
        assert(end.take(i + 1) =~= end.take(i as int).push(end[i as int]));
        assert(suffix@.take(i + 1) =~= suffix@.take(i as int).push(suffix@[i as int]));
        i = i + 1;
    }
    assert(end.take(m as int) =~= end);
    assert(suffix@.take(m as int) =~= suffix@);
    true
}

/// Tells from its name what a file is.
pub fn classify(name: &str) -> (r: FileKind)
    ensures
        r == kind_of(name@),
{
    proof {
        reveal_strlit(".sst");
        reveal_strlit(".sst.tmp");
        assert(".sst"@ =~= table_suffix());
        assert(".sst.tmp"@ =~= leftover_suffix());
    }
    if has_suffix(name, ".sst") {
        let n: usize = name.unicode_len();
        assert(name@.subrange(0, n - 4) =~= name@.take(n - 4));
        if let Some(id) = parse_id(name, 0, n - 4) {
            return FileKind::Table(id);
        }
    }
    if has_suffix(name, ".sst.tmp") {
        FileKind::Leftover
    } else {
        FileKind::Other
    }
}

/// The names in a vector of strings.
pub open spec fn names_view(s: Seq<String>) -> Seq<Seq<char>> {
    s.map_values(|n: String| n@)
}

/// The tables in a vector of ids and names.
pub open spec fn found_view(s: Seq<(u64, String)>) -> Seq<(u64, Seq<char>)> {
    s.map_values(|p: (u64, String)| (p.0, p.1@))
}

/// A name is the characters that it has, and a table that is found is given with its
/// id.
pub proof fn lemma_what_names_say(s: Seq<String>, t: Seq<(u64, String)>, i: int)
    ensures
        names_view(s).len() == s.len(),
        found_view(t).len() == t.len(),
        0 <= i < s.len() ==> names_view(s)[i] == s[i]@,
        0 <= i < t.len() ==> found_view(t)[i] == (t[i].0, t[i].1@),
{
}

/// The place of a new entry, where the entries behind it have greater ids and
/// the one in front of it has not.
proof fn lemma_place_by_id(s: Seq<(u64, Seq<char>)>, x: (u64, Seq<char>), p: int)
    requires
        0 <= p <= s.len(),
        p > 0 ==> s[p - 1].0 <= x.0,
        forall|i: int| p <= i < s.len() ==> (#[trigger] s[i]).0 > x.0,
    ensures
        insert_by_id(s, x) == s.insert(p, x),
    decreases s.len(),
{
    if p == s.len() {
        assert(s.insert(p, x) =~= s.push(x));
    } else {
        let init = s.drop_last();
        assert(s[s.len() - 1].0 > x.0);
        assert forall|i: int| p <= i < init.len() implies (#[trigger] init[i]).0 > x.0 by {
            assert(s[i].0 > x.0);
        }
        lemma_place_by_id(init, x, p);
        assert(s.insert(p, x) =~= init.insert(p, x).push(s.last()));
    }
}

/// Finds the tables among the files of a directory, by ascending id, and the
/// remainders of writes that were cut short.
pub fn discover_sstable_files(names: &Vec<String>) -> (r: (Vec<(u64, String)>, Vec<String>))
    ensures
        found_view(r.0@) == tables_found(names_view(names@)),
        names_view(r.1@) == leftovers_found(names_view(names@)),
{
    let ghost all = names_view(names@);
    let mut found: Vec<(u64, String)> = Vec::new();
    let mut leftovers: Vec<String> = Vec::new();
    let mut i: usize = 0;
    proof {
        assert(all.take(0) =~= Seq::empty());
        assert(found_view(found@) =~= Seq::empty());
        assert(names_view(leftovers@) =~= Seq::empty());
    }
    while i < names.len()
        invariant
            i <= names@.len(),
            all == names_view(names@),
            found_view(found@) == tables_found(all.take(i as int)),
            names_view(leftovers@) == leftovers_found(all.take(i as int)),
        decreases names@.len() - i,
    {
        let name = &names[i];
        assert(all.take(i + 1).drop_last() =~= all.take(i as int));
        assert(all.take(i + 1).last() == name@);
        match classify(name.as_str()) {
            FileKind::Table(id) => {
                let ghost before = found@;
                let mut p: usize = found.len();
                while p > 0 && found[p - 1].0 > id
                    invariant
                        p <= found@.len(),
                        forall|j: int| p <= j < found@.len() ==> (#[trigger] found@[j]).0 > id,
                    decreases p,
                {
                    p = p - 1;
                }
                proof {
                    let s = found_view(found@);
                    assert forall|j: int| p <= j < s.len() implies (#[trigger] s[j]).0 > id by {
                        assert(found@[j].0 > id);
                    }
                    lemma_place_by_id(s, (id, name@), p as int);
                }
                found.insert(p, (id, name.clone()));
                assert(found_view(found@) =~= found_view(before).insert(p as int, (id, name@)));
            },
            FileKind::Leftover => {
                let ghost before = leftovers@;
                leftovers.push(name.clone());
                assert(names_view(leftovers@) =~= names_view(before).push(name@));
            },
            FileKind::Other => {},
        }
        i = i + 1;
    }
    assert(all.take(i as int) =~= all);
    (found, leftovers)
}

/// The digit for `d`.
fn digit_str(d: u64) -> (r: &'static str)
    requires
        d < 10,
    ensures
        r@ == seq![digit_char(d as int)],
{
    proof {
        reveal_strlit("0");
        reveal_strlit("1");
        reveal_strlit("2");
        reveal_strlit("3");
        reveal_strlit("4");
        reveal_strlit("5");
        reveal_strlit("6");
        reveal_strlit("7");
        reveal_strlit("8");
        reveal_strlit("9");
    }
    let r = match d {
        0 => "0",
        1 => "1",
        2 => "2",
        3 => "3",
        4 => "4",
        5 => "5",
        6 => "6",
        7 => "7",
        8 => "8",
        _ => "9",
    };
    assert(r@ =~= seq![digit_char(d as int)]);
    r
}

/// `n` in decimal.
fn decimal(n: u64) -> (r: String)
    ensures
        r@ == digits(n as nat),
    decreases n,
{
    if n < 10 {
        String::from_str(digit_str(n))
    } else {
        let mut r: String = decimal(n / 10);
        r.append(digit_str(n % 10));
        assert(r@ =~= digits(n as nat));
        r
    }
}

/// The name of the file for the table with this id.
pub fn sstable_file_name(id: u64) -> (r: String)
    ensures
        r@ == file_name_of(id),
{
    let number = decimal(id);
    let len: usize = number.as_str().unicode_len();
    let mut name: String = String::new();
    let mut i: usize = len;
    proof {
        reveal_strlit("0");
        reveal_strlit(".sst");
        assert(name@ =~= zeros(i - len));
    }
    while i < 6
        invariant
            len <= i,
            i <= 6 || i == len,
            name@ == zeros(i - len),
            "0"@ == seq!['0'],
        decreases 6 - i,
    {
        name.append("0");
        i = i + 1;
        assert(name@ =~= zeros(i - len));
    }
    name.append(number.as_str());
    name.append(".sst");
    assert(zeros(i - len) =~= zeros(6 - len));
    assert(".sst"@ =~= table_suffix());
    name
}

} // verus!
