//! Picking the hidraw nodes out of a directory listing.
use vstd::prelude::*;
use vstd::string::*;

verus! {

/// The text of each name.
pub open spec fn texts(names: Seq<String>) -> Seq<Seq<char>> {
    names.map_values(|s: String| s@)
}

/// The name is that of a hidraw node: it begins with `hidraw`.
pub open spec fn is_hidraw_node(name: Seq<char>) -> bool {
    name.len() >= 6 && name.subrange(0, 6) == seq!['h', 'i', 'd', 'r', 'a', 'w']
}

/// The number of ASCII digits that come right before index `i`.
pub open spec fn digit_run_before(s: Seq<char>, i: int) -> nat
    decreases i,
{
    if i <= 0 || i > s.len() || !('0' <= s[i - 1] <= '9') {
        0
    } else {
        1 + digit_run_before(s, i - 1)
    }
}

/// No run of ASCII digits in the name is longer than nine.
pub open spec fn short_digit_runs(s: Seq<char>) -> bool {
    forall|i: int| 0 <= i <= s.len() ==> #[trigger] digit_run_before(s, i) <= 9
}

/// The hidraw nodes among the names that `human_sort` can compare, in
/// their order.
pub open spec fn sortable_nodes(names: Seq<Seq<char>>) -> Seq<Seq<char>> {
    names.filter(|s: Seq<char>| is_hidraw_node(s) && short_digit_runs(s))
}

/// The hidraw nodes among the names with a run of more than nine digits,
/// in their order.
pub open spec fn unsortable_nodes(names: Seq<Seq<char>>) -> Seq<Seq<char>> {
    names.filter(|s: Seq<char>| is_hidraw_node(s) && !short_digit_runs(s))
}

/// How `human_sort` orders two names: runs of digits compare as numbers,
/// the rest character by character.
pub uninterp spec fn human_order_of(a: Seq<char>, b: Seq<char>) -> core::cmp::Ordering;

/// The opposite ordering.
pub open spec fn flipped(o: core::cmp::Ordering) -> core::cmp::Ordering {
    match o {
        core::cmp::Ordering::Less => core::cmp::Ordering::Greater,
        core::cmp::Ordering::Equal => core::cmp::Ordering::Equal,
        core::cmp::Ordering::Greater => core::cmp::Ordering::Less,
    }
}

/// No two neighbours of the sequence are out of `human_sort`'s order.
pub open spec fn human_sorted(s: Seq<Seq<char>>) -> bool {
    forall|k: int|
        0 <= k < s.len() - 1 ==> #[trigger] human_order_of(s[k], s[k + 1])
            != core::cmp::Ordering::Greater
}

/// Relies on `human_sort::compare`. Its result depends on the two names
/// alone, and its steps treat both names alike, so swapping them flips the
/// result. It adds up a run of digits in a `u32`, which overflows past nine
/// digits: such names are left out.
#[verifier::external_body]
fn human_compare(a: &str, b: &str) -> (r: core::cmp::Ordering)
    requires
        short_digit_runs(a@),
        short_digit_runs(b@),
    ensures
        r == human_order_of(a@, b@),
        r == flipped(human_order_of(b@, a@)),
{
    human_sort::compare(a, b)
}

proof fn lemma_filter_push(s: Seq<Seq<char>>, x: Seq<char>, pred: spec_fn(Seq<char>) -> bool)
    ensures
        s.push(x).filter(pred) == s.filter(pred) + (if pred(x) {
            seq![x]
        } else {
            Seq::empty()
        }),
{
    reveal(Seq::filter);
    assert(s.push(x).drop_last() =~= s);
}

fn has_short_digit_runs(name: &String) -> (r: bool)
    ensures
        r == short_digit_runs(name@),
{
    let t = name.as_str();
    let n = t.unicode_len();
    let mut run: usize = 0;
    let mut i: usize = 0;
    while i < n
        invariant
            i <= n,
            n == t@.len(),
            t@ == name@,
            run == digit_run_before(t@, i as int),
            forall|k: int| 0 <= k <= i ==> #[trigger] digit_run_before(t@, k) <= 9,
        decreases n - i,
    {
        let c = t.get_char(i);
        if '0' <= c && c <= '9' {
            run = run + 1;
        } else {
            run = 0;
        }
        i = i + 1;
        assert(run == digit_run_before(t@, i as int));
        if run > 9 {
            return false;
        }
    }
    true
}

/// Puts `x` into `sorted` after the last name that `human_sort` does not
/// place after it.
fn insert_in_order(sorted: &mut Vec<String>, x: String)
    requires
        human_sorted(texts(old(sorted)@)),
        short_digit_runs(x@),
        forall|k: int| 0 <= k < old(sorted)@.len() ==> short_digit_runs(#[trigger] old(sorted)@[k]@),
    ensures
        human_sorted(texts(final(sorted)@)),
        forall|k: int| 0 <= k < final(sorted)@.len() ==> short_digit_runs(#[trigger] final(sorted)@[k]@),
        texts(final(sorted)@).to_multiset() == texts(old(sorted)@).to_multiset().insert(x@),
{
    let ghost s = texts(sorted@);
    let mut j: usize = sorted.len();
    let mut placed = false;
    while j > 0 && !placed
        invariant
            j <= sorted@.len(),
            sorted@ == old(sorted)@,
            s == texts(sorted@),
            short_digit_runs(x@),
            forall|k: int| 0 <= k < sorted@.len() ==> short_digit_runs(#[trigger] sorted@[k]@),
            forall|m: int| j <= m < s.len() ==> human_order_of(x@, #[trigger] s[m]) == core::cmp::Ordering::Less,
            placed ==> j > 0 && human_order_of(s[j - 1], x@) != core::cmp::Ordering::Greater,
        decreases j + (if placed {
            0int
        } else {
            1int
        }),
    {
        match human_compare(sorted[j - 1].as_str(), x.as_str()) {
            core::cmp::Ordering::Greater => {
                j = j - 1;
            },
            _ => {
                placed = true;
            },
        }
    }
    let ghost before = sorted@;
    let ghost xv = x@;
    proof {
        if j > 0 {
            assert(human_order_of(s[j - 1], xv) != core::cmp::Ordering::Greater);
        }
    }
    sorted.insert(j, x);
    proof {
        let t = texts(sorted@);
        assert(t =~= s.insert(j as int, xv));
        assert forall|k: int| 0 <= k < t.len() - 1 implies #[trigger] human_order_of(t[k], t[k + 1])
            != core::cmp::Ordering::Greater by {
            if k + 1 < j {
                assert(t[k] == s[k] && t[k + 1] == s[k + 1]);
                assert(human_order_of(s[k], s[k + 1]) != core::cmp::Ordering::Greater);
            } else if k + 1 == j {
                assert(t[k] == s[k] && t[k + 1] == xv);
            } else if k == j {
                assert(t[k] == xv && t[k + 1] == s[k]);
            } else {
                let m = k - 1;
                assert(t[k] == s[m] && t[k + 1] == s[m + 1]);
                assert(human_order_of(s[m], s[m + 1]) != core::cmp::Ordering::Greater);
            }
        }
        assert forall|k: int| 0 <= k < sorted@.len() implies short_digit_runs(#[trigger] sorted@[k]@) by {
            if k < j {
                assert(sorted@[k] == before[k]);
            } else if k > j {
                assert(sorted@[k] == before[k - 1]);
            }
        }
        vstd::seq_lib::to_multiset_insert(s, j as int, xv);
    }
}

fn is_hidraw_name(name: &String) -> (r: bool)
    ensures
        r == is_hidraw_node(name@),
{
    let t = name.as_str();
    let prefix = "hidraw";
    proof {
        reveal_strlit("hidraw");
    }
    assert(prefix@ =~= seq!['h', 'i', 'd', 'r', 'a', 'w']);
    if t.unicode_len() < 6 {
        return false;
    }
    let mut i: usize = 0;
    while i < 6
        invariant
            i <= 6,
            t@.len() >= 6,
            t@ == name@,
            prefix@ == seq!['h', 'i', 'd', 'r', 'a', 'w'],
            forall|k: int| 0 <= k < i ==> t@[k] == prefix@[k],
        decreases 6 - i,
    {
        if t.get_char(i) != prefix.get_char(i) {
            assert(t@.subrange(0, 6)[i as int] != prefix@[i as int]);
            assert(t@.subrange(0, 6) != prefix@);
            assert(!is_hidraw_node(name@));
            return false;
        }
        i = i + 1;
    }
    assert(t@.subrange(0, 6) =~= prefix@);
    true
}

/// The hidraw nodes among the names of a directory's entries: first those
/// that `human_sort` can compare, each pair of neighbours in its order
/// (`hidraw2` before `hidraw10`); then those with a run of more than nine
/// digits, in the order of the entries.
pub fn hidraw_nodes(entries: &Vec<String>) -> (r: Vec<String>)
    ensures
        ({
            let n = sortable_nodes(texts(entries@)).len() as int;
            &&& texts(r@).take(n).to_multiset() == sortable_nodes(texts(entries@)).to_multiset()
            &&& human_sorted(texts(r@).take(n))
            &&& texts(r@).skip(n) == unsortable_nodes(texts(entries@))
        }),
{
    let ghost ok = |s: Seq<char>| is_hidraw_node(s) && short_digit_runs(s);
    let ghost bad = |s: Seq<char>| is_hidraw_node(s) && !short_digit_runs(s);
    let mut sorted: Vec<String> = Vec::new();
    let mut others: Vec<String> = Vec::new();
    let mut i: usize = 0;
    proof {
        reveal(Seq::filter);
        assert(texts(entries@.take(0)) =~= Seq::<Seq<char>>::empty());
        assert(texts(sorted@) =~= Seq::<Seq<char>>::empty());
    }
    while i < entries.len()
        invariant
            i <= entries@.len(),
            ok == (|s: Seq<char>| is_hidraw_node(s) && short_digit_runs(s)),
            bad == (|s: Seq<char>| is_hidraw_node(s) && !short_digit_runs(s)),
            texts(sorted@).to_multiset() == texts(entries@.take(i as int)).filter(ok).to_multiset(),
            texts(sorted@).len() == texts(entries@.take(i as int)).filter(ok).len(),
            human_sorted(texts(sorted@)),
            forall|k: int| 0 <= k < sorted@.len() ==> short_digit_runs(#[trigger] sorted@[k]@),
            texts(others@) == texts(entries@.take(i as int)).filter(bad),
        decreases entries@.len() - i,
    {
        let ghost sb = sorted@;
        let ghost ob = others@;
        if is_hidraw_name(&entries[i]) {
            if has_short_digit_runs(&entries[i]) {
                insert_in_order(&mut sorted, entries[i].clone());
            } else {
                others.push(entries[i].clone());
            }
        }
        proof {
            let x = entries@[i as int]@;
            let t = texts(entries@.take(i as int));
            assert(texts(entries@.take(i + 1)) =~= t.push(x));
            lemma_filter_push(t, x, ok);
            lemma_filter_push(t, x, bad);
            if ok(x) {
                assert(t.filter(ok) + seq![x] =~= t.filter(ok).push(x));
                vstd::seq_lib::to_multiset_build(t.filter(ok), x);
                vstd::seq_lib::to_multiset_len(texts(sorted@));
                vstd::seq_lib::to_multiset_len(texts(sb));
                assert(texts(others@) =~= texts(ob));
            } else if bad(x) {
                assert(texts(sorted@) =~= texts(sb));
                assert(texts(others@) =~= texts(ob).push(x));
            } else {
                assert(texts(sorted@) =~= texts(sb));
                assert(texts(others@) =~= texts(ob));
            }
        }
        i = i + 1;
    }
    assert(entries@.take(entries@.len() as int) =~= entries@);
    let ghost sv = sorted@;
    let ghost ov = others@;
    sorted.append(&mut others);
    proof {
        let n = sortable_nodes(texts(entries@)).len() as int;
        assert(texts(sorted@) =~= texts(sv) + texts(ov));
        assert(texts(sorted@).take(n) =~= texts(sv));
        assert(texts(sorted@).skip(n) =~= texts(ov));
    }
    sorted
}

/// Why a device's name could not be read from its uevent text.
#[derive(Clone, Copy, Debug, PartialEq, Eq, Structural)]
pub enum UeventError {
    /// No line begins with `HID_NAME`.
    MissingName,
    /// The `HID_NAME` line holds no `=`.
    BadNameFormat,
}

/// The number of characters from `from` up to the first line feed at or
/// after it, or up to the text's end where there is none.
pub open spec fn line_len(text: Seq<char>, from: int) -> nat
    decreases text.len() - from,
{
    if from >= text.len() || from < 0 || text[from] == '\n' {
        0
    } else {
        1 + line_len(text, from + 1)
    }
}

/// The index of the first line feed at or after `from`, or the text's
/// length where there is none.
pub open spec fn line_end(text: Seq<char>, from: int) -> int {
    from + line_len(text, from)
}

/// The line that begins at `from`, without its line feed and without the
/// carriage return that comes before one.
pub open spec fn line_at(text: Seq<char>, from: int) -> Seq<char> {
    let end = line_end(text, from);
    let line = text.subrange(from, end);
    if end < text.len() && line.len() > 0 && line.last() == '\r' {
        line.drop_last()
    } else {
        line
    }
}

/// `s` begins with `p`.
pub open spec fn begins_with(s: Seq<char>, p: Seq<char>) -> bool {
    s.len() >= p.len() && s.subrange(0, p.len() as int) == p
}

/// The first line, from the one that begins at `from` on, that begins with
/// `HID_NAME`.
pub open spec fn name_line(text: Seq<char>, from: int) -> Option<Seq<char>>
    decreases text.len() - from,
{
    if from >= text.len() || from < 0 {
        None
    } else if begins_with(line_at(text, from), seq!['H', 'I', 'D', '_', 'N', 'A', 'M', 'E']) {
        Some(line_at(text, from))
    } else if line_end(text, from) >= text.len() {
        None
    } else {
        name_line(text, line_end(text, from) + 1)
    }
}

/// The index of the first `=` of `s` at or after `from`, or the length of
/// `s` where there is none.
pub open spec fn equals_index(s: Seq<char>, from: int) -> int
    decreases s.len() - from,
{
    if from >= s.len() || from < 0 {
        s.len() as int
    } else if s[from] == '=' {
        from
    } else {
        equals_index(s, from + 1)
    }
}

/// What follows the first `=` of a line, if it holds one.
pub open spec fn after_equals(line: Seq<char>) -> Option<Seq<char>> {
    let i = equals_index(line, 0);
    if i < line.len() {
        Some(line.subrange(i + 1, line.len() as int))
    } else {
        None
    }
}

proof fn lemma_line_end_bounds(text: Seq<char>, from: int)
    requires
        0 <= from <= text.len(),
    ensures
        from <= line_end(text, from) <= text.len(),
        line_end(text, from) < text.len() ==> text[line_end(text, from)] == '\n',
    decreases text.len() - from,
{
    if from < text.len() && text[from] != '\n' {
        lemma_line_end_bounds(text, from + 1);
    }
}

proof fn lemma_equals_index_bounds(s: Seq<char>, from: int)
    requires
        0 <= from <= s.len(),
    ensures
        from <= equals_index(s, from) <= s.len(),
    decreases s.len() - from,
{
    if from < s.len() && s[from] != '=' {
        lemma_equals_index_bounds(s, from + 1);
    }
}

fn find_line_end(text: &str, from: usize, n: usize) -> (r: usize)
    requires
        n == text@.len(),
        from <= n,
    ensures
        r == line_end(text@, from as int),
        from <= r <= n,
{
    let mut i = from;
    while i < n && text.get_char(i) != '\n'
        invariant
            n == text@.len(),
            from <= i <= n,
            line_end(text@, from as int) == line_end(text@, i as int),
        decreases n - i,
    {
        i = i + 1;
    }
    proof {
        lemma_line_end_bounds(text@, i as int);
    }
    i
}

fn begins_with_name(line: &str) -> (r: bool)
    ensures
        r == begins_with(line@, seq!['H', 'I', 'D', '_', 'N', 'A', 'M', 'E']),
{
    let prefix = "HID_NAME";
    proof {
        reveal_strlit("HID_NAME");
    }
    assert(prefix@ =~= seq!['H', 'I', 'D', '_', 'N', 'A', 'M', 'E']);
    if line.unicode_len() < 8 {
        return false;
    }
    let mut i: usize = 0;
    while i < 8
        invariant
            i <= 8,
            line@.len() >= 8,
            prefix@ == seq!['H', 'I', 'D', '_', 'N', 'A', 'M', 'E'],
            forall|k: int| 0 <= k < i ==> line@[k] == prefix@[k],
        decreases 8 - i,
    {
        if line.get_char(i) != prefix.get_char(i) {
            assert(line@.subrange(0, 8)[i as int] != prefix@[i as int]);
            return false;
        }
        i = i + 1;
    }
    assert(line@.subrange(0, 8) =~= prefix@);
    true
}

fn value_after_equals(line: &str) -> (r: Option<String>)
    ensures
        match after_equals(line@) {
            None => r is None,
            Some(v) => r matches Some(s) && s@ == v,
        },
{
    let n = line.unicode_len();
    let mut i: usize = 0;
    while i < n && line.get_char(i) != '='
        invariant
            n == line@.len(),
            i <= n,
            equals_index(line@, 0) == equals_index(line@, i as int),
        decreases n - i,
    {
        i = i + 1;
    }
    proof {
        lemma_equals_index_bounds(line@, i as int);
    }
    if i < n {
        Some(String::from_str(line.substring_char(i + 1, n)))
    } else {
        None
    }
}

/// The device name that a hidraw node's uevent text gives: what follows the
/// first `=` on the first line that begins with `HID_NAME`.
pub fn hid_name(uevent: &str) -> (r: Result<String, UeventError>)
    ensures
        match name_line(uevent@, 0) {
            None => r == Err::<String, UeventError>(UeventError::MissingName),
            Some(line) => match after_equals(line) {
                None => r == Err::<String, UeventError>(UeventError::BadNameFormat),
                Some(v) => r matches Ok(s) && s@ == v,
            },
        },
{
    let n = uevent.unicode_len();
    let mut from: usize = 0;
    while from < n
        invariant
            n == uevent@.len(),
            from <= n,
            name_line(uevent@, 0) == name_line(uevent@, from as int),
        decreases n - from,
    {
        let end = find_line_end(uevent, from, n);
        let mut stop = end;
        if end < n && end > from && uevent.get_char(end - 1) == '\r' {
            stop = end - 1;
        }
        let line = uevent.substring_char(from, stop);
        assert(line@ =~= line_at(uevent@, from as int));
        if begins_with_name(line) {
            return match value_after_equals(line) {
                Some(v) => Ok(v),
                None => Err(UeventError::BadNameFormat),
            };
        }
        if end == n {
            from = n;
        } else {
            from = end + 1;
        }
    }
    Err(UeventError::MissingName)
}

} // verus!
