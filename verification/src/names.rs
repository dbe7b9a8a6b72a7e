//! The file of group names: one name to a line.

use crate::text::{chars_of, same_text, text_of};
use crate::views::{copy_str, strings_view};
use vstd::prelude::*;

verus! {

/// The place of the first line feed, or the length where there is none.
pub open spec fn line_end(s: Seq<char>) -> nat
    decreases s.len(),
{
    if s.len() == 0 || s[0] == '\n' {
        0
    } else {
        1 + line_end(s.drop_first())
    }
}

/// A line without the carriage return before its line feed.
pub open spec fn without_return(line: Seq<char>) -> Seq<char> {
    if line.len() > 0 && line.last() == '\r' {
        line.drop_last()
    } else {
        line
    }
}

/// The lines of a text. A line feed at the end starts no further line.
pub open spec fn lines_of(s: Seq<char>) -> Seq<Seq<char>>
    decreases s.len(),
{
    let n = line_end(s) as int;
    if s.len() == 0 {
        Seq::empty()
    } else if n >= s.len() {
        seq![s]
    } else {
        seq![without_return(s.take(n))] + lines_of(s.skip(n + 1))
    }
}

/// The names in a file of group names: its lines that are not empty.
pub open spec fn names_in(contents: Seq<char>) -> Seq<Seq<char>> {
    lines_of(contents).filter(|line: Seq<char>| line.len() > 0)
}

/// Names, one to a line.
pub open spec fn joined(names: Seq<Seq<char>>) -> Seq<char>
    decreases names.len(),
{
    if names.len() == 0 {
        Seq::empty()
    } else if names.len() == 1 {
        names[0]
    } else {
        names[0] + seq!['\n'] + joined(names.drop_first())
    }
}

proof fn lemma_line_end(s: Seq<char>, n: int)
    requires
        0 <= n <= s.len(),
        forall|i: int| 0 <= i < n ==> s[i] != '\n',
        n < s.len() ==> s[n] == '\n',
    ensures
        line_end(s) == n,
    decreases s.len(),
{
    if n > 0 {
        lemma_line_end(s.drop_first(), n - 1);
    }
}

/// The lines of a text.
pub fn lines(s: &str) -> (r: Vec<String>)
    ensures
        strings_view(r@) == lines_of(s@),
{
    let chars = chars_of(s);
    let mut r: Vec<String> = Vec::new();
    let mut start: usize = 0;
    assert(s@.skip(0) =~= s@);
    assert(strings_view(r@) + lines_of(s@) =~= lines_of(s@));
    while start < chars.len()
        invariant
            chars@ == s@,
            start <= chars@.len(),
            strings_view(r@) + lines_of(s@.skip(start as int)) == lines_of(s@),
        decreases chars@.len() - start,
    {
        let ghost rest = s@.skip(start as int);
        let ghost before = r@;
        let mut end: usize = start;
        while end < chars.len() && chars[end] != '\n'
            invariant
                chars@ == s@,
                start <= end <= chars@.len(),
                forall|i: int| start <= i < end ==> chars@[i] != '\n',
            decreases chars@.len() - end,
        {
            end = end + 1;
        }
        proof {
            lemma_line_end(rest, end - start);
        }
        if end == chars.len() {
            let line = text_of(&chars, start, end);
            r.push(line);
            proof {
                assert(line@ =~= rest);
                assert(strings_view(r@) =~= strings_view(before) + seq![rest]);
                assert(s@.skip(end as int) =~= Seq::empty());
                assert(strings_view(r@) + lines_of(s@.skip(end as int)) =~= strings_view(before)
                    + lines_of(rest));
            }
            start = end;
        } else {
            let cut: usize = if end > start && chars[end - 1] == '\r' {
                end - 1
            } else {
                end
            };
            let line = text_of(&chars, start, cut);
            r.push(line);
            proof {
                assert(line@ =~= without_return(rest.take(end - start)));
                assert(rest.skip(end - start + 1) =~= s@.skip(end + 1));
                assert(strings_view(r@) =~= strings_view(before) + seq![line@]);
                assert(strings_view(r@) + lines_of(s@.skip(end + 1)) =~= strings_view(before) + (seq![
                    line@,
                ] + lines_of(s@.skip(end + 1))));
            }
            start = end + 1;
        }
    }
    assert(s@.skip(start as int) =~= Seq::empty());
    assert(strings_view(r@) + Seq::<Seq<char>>::empty() =~= strings_view(r@));
    r
}

/// The names in a file of group names.
pub fn listed_names(contents: &str) -> (r: Vec<String>)
    ensures
        strings_view(r@) == names_in(contents@),
{
    reveal(Seq::filter);
    let all = lines(contents);
    let ghost want = |line: Seq<char>| line.len() > 0;
    let ghost lines = strings_view(all@);
    let mut r: Vec<String> = Vec::new();
    let mut i: usize = 0;
    assert(strings_view(r@) =~= lines.take(0).filter(want));
    while i < all.len()
        invariant
            i <= all@.len(),
            lines == strings_view(all@),
            want == (|line: Seq<char>| line.len() > 0),
            strings_view(r@) == lines.take(i as int).filter(want),
        decreases all@.len() - i,
    {
        reveal(Seq::filter);
        let ghost before = r@;
        assert(lines.take(i + 1).drop_last() =~= lines.take(i as int));
        if !all[i].as_str().is_empty() {
            let name = copy_str(all[i].as_str());
            r.push(name);
            assert(strings_view(r@) =~= strings_view(before).push(name@));
        }
        i = i + 1;
    }
    assert(lines.take(i as int) =~= lines);
    r
}

/// Writes names, one to a line.
pub fn join_names(names: &Vec<String>) -> (r: String)
    ensures
        r@ == joined(strings_view(names@)),
{
    let ghost all = strings_view(names@);
    let mut r = String::new();
    let mut i: usize = names.len();
    assert(all.skip(i as int) =~= Seq::empty());
    while i > 0
        invariant
            i <= names@.len(),
            all == strings_view(names@),
            r@ == joined(all.skip(i as int)),
        decreases i,
    {
        i = i - 1;
        let mut line = copy_str(names[i].as_str());
        if i + 1 < names.len() {
            line.push('\n');
        }
        line.append(r.as_str());
        proof {
            let rest = all.skip(i as int);
            assert(rest[0] == all[i as int]);
            assert(rest.drop_first() =~= all.skip(i + 1));
            assert(line@ =~= joined(rest));
        }
        r = line;
    }
    assert(all.skip(0) =~= all);
    r
}

/// The file with one more name, or nothing where it lists the name already.
pub fn with_name(contents: &str, group: &str) -> (r: Option<String>)
    ensures
        match r {
            Some(new) => {
                &&& !names_in(contents@).contains(group@)
                &&& new@ == joined(names_in(contents@).push(group@))
            },
            None => names_in(contents@).contains(group@),
        },
{
    let mut names = listed_names(contents);
    let ghost had = strings_view(names@);
    let mut i: usize = 0;
    while i < names.len()
        invariant
            i <= names@.len(),
            had == strings_view(names@),
            had == names_in(contents@),
            forall|j: int| 0 <= j < i ==> #[trigger] had[j] != group@,
        decreases names@.len() - i,
    {
        assert(had[i as int] == names@[i as int]@);
        if same_text(names[i].as_str(), group) {
            assert(had.contains(group@));
            return None;
        }
        i = i + 1;
    }
    names.push(copy_str(group));
    assert(strings_view(names@) =~= had.push(group@));
    Some(join_names(&names))
}

/// Names without one of them.
pub open spec fn others(names: Seq<Seq<char>>, name: Seq<char>) -> Seq<Seq<char>> {
    names.filter(|n: Seq<char>| n != name)
}

/// The file without a name.
pub fn without_name(contents: &str, group: &str) -> (r: String)
    ensures
        r@ == joined(others(names_in(contents@), group@)),
{
    reveal(Seq::filter);
    let names = listed_names(contents);
    let ghost want = |name: Seq<char>| name != group@;
    let ghost had = strings_view(names@);
    let mut kept: Vec<String> = Vec::new();
    let mut i: usize = 0;
    assert(strings_view(kept@) =~= had.take(0).filter(want));
    while i < names.len()
        invariant
            i <= names@.len(),
            had == strings_view(names@),
            want == (|name: Seq<char>| name != group@),
            strings_view(kept@) == had.take(i as int).filter(want),
        decreases names@.len() - i,
    {
        reveal(Seq::filter);
        let ghost before = kept@;
        assert(had.take(i + 1).drop_last() =~= had.take(i as int));
        if !same_text(names[i].as_str(), group) {
            let name = copy_str(names[i].as_str());
            kept.push(name);
            assert(strings_view(kept@) =~= strings_view(before).push(name@));
        }
        i = i + 1;
    }
    proof {
        assert(had.take(i as int) =~= had);
        lemma_same_filter(had, want, |n: Seq<char>| n != group@);
    }
    join_names(&kept)
}

/// Filters that want the same give the same.
proof fn lemma_same_filter(
    names: Seq<Seq<char>>,
    a: spec_fn(Seq<char>) -> bool,
    b: spec_fn(Seq<char>) -> bool,
)
    requires
        forall|n: Seq<char>| #[trigger] a(n) == b(n),
    ensures
        names.filter(a) == names.filter(b),
    decreases names.len(),
{
    reveal(Seq::filter);
    if names.len() > 0 {
        lemma_same_filter(names.drop_last(), a, b);
    }
}

/// Whether a name can stand on a line of its own.
pub open spec fn fits_line(name: Seq<char>) -> bool {
    &&& name.len() > 0
    &&& name.last() != '\r'
    &&& forall|i: int| 0 <= i < name.len() ==> #[trigger] name[i] != '\n'
}

/// Names that were written, each of which fits on a line, are the names that are read back.
pub proof fn law_names_round_trip(names: Seq<Seq<char>>)
    requires
        forall|i: int| 0 <= i < names.len() ==> fits_line(#[trigger] names[i]),
    ensures
        names_in(joined(names)) == names,
{
    lemma_lines_of_joined(names);
    lemma_filter_all(names);
}

proof fn lemma_lines_of_joined(names: Seq<Seq<char>>)
    requires
        forall|i: int| 0 <= i < names.len() ==> fits_line(#[trigger] names[i]),
    ensures
        lines_of(joined(names)) == names,
    decreases names.len(),
{
    if names.len() == 0 {
        assert(names =~= Seq::empty());
    } else if names.len() == 1 {
        assert(fits_line(names[0]));
        lemma_line_end(names[0], names[0].len() as int);
        assert(names =~= seq![names[0]]);
    } else {
        let name = names[0];
        let rest = names.drop_first();
        let s = joined(names);
        assert(fits_line(name));
        assert forall|i: int| 0 <= i < rest.len() implies fits_line(#[trigger] rest[i]) by {
            assert(rest[i] == names[i + 1]);
        }
        lemma_lines_of_joined(rest);
        lemma_line_end(s, name.len() as int);
        assert(s.take(name.len() as int) =~= name);
        assert(s.skip(name.len() as int + 1) =~= joined(rest));
        assert(seq![name] + rest =~= names);
    }
}

proof fn lemma_filter_all(names: Seq<Seq<char>>)
    requires
        forall|i: int| 0 <= i < names.len() ==> fits_line(#[trigger] names[i]),
    ensures
        names.filter(|line: Seq<char>| line.len() > 0) == names,
    decreases names.len(),
{
    reveal(Seq::filter);
    if names.len() > 0 {
        let t = names.drop_last();
        assert forall|i: int| 0 <= i < t.len() implies fits_line(#[trigger] t[i]) by {
            assert(t[i] == names[i]);
        }
        lemma_filter_all(t);
        assert(fits_line(names[names.len() - 1]));
        assert(t.push(names.last()) =~= names);
    }
}

/// The lines of a text that ends with a line feed, and then those of what follows it, are the lines
/// of the whole.
pub proof fn law_lines_of_parts(a: Seq<char>, b: Seq<char>)
    requires
        a.len() > 0 ==> a.last() == '\n',
    ensures
        lines_of(a + b) == lines_of(a) + lines_of(b),
    decreases a.len(),
{
    if a.len() == 0 {
        assert(a + b =~= b);
        assert(lines_of(a) + lines_of(b) =~= lines_of(b));
    } else {
        let n = lemma_line_end_in(a);
        lemma_line_end(a, n);
        let s = a + b;
        assert forall|i: int| 0 <= i < n implies s[i] != '\n' by {
            assert(s[i] == a[i]);
        }
        lemma_line_end(s, n);
        let rest = a.skip(n + 1);
        assert(s.skip(n + 1) =~= rest + b);
        assert(s.take(n) =~= a.take(n));
        if rest.len() > 0 {
            assert(rest.last() == a.last());
        }
        law_lines_of_parts(rest, b);
        assert(lines_of(s) =~= seq![without_return(a.take(n))] + (lines_of(rest) + lines_of(b)));
        assert(lines_of(a) + lines_of(b) =~= seq![without_return(a.take(n))] + (lines_of(rest)
            + lines_of(b)));
    }
}

/// The place of the first line feed of a text that has one at its end.
proof fn lemma_line_end_in(a: Seq<char>) -> (n: int)
    requires
        a.len() > 0,
        a.last() == '\n',
    ensures
        0 <= n < a.len(),
        a[n] == '\n',
        forall|i: int| 0 <= i < n ==> a[i] != '\n',
    decreases a.len(),
{
    if a[0] == '\n' {
        0
    } else {
        let rest = a.drop_first();
        assert(rest.last() == a.last());
        let n = lemma_line_end_in(rest);
        assert forall|i: int| 0 <= i < n + 1 implies a[i] != '\n' by {
            if i > 0 {
                assert(rest[i - 1] == a[i]);
            }
        }
        n + 1
    }
}

/// A text without a line feed, and one behind it, is a line: the text, without the carriage return
/// at its end if there is one. Without the line feed it is a line as it stands, unless it is empty.
pub proof fn law_one_line(line: Seq<char>)
    requires
        forall|i: int| 0 <= i < line.len() ==> #[trigger] line[i] != '\n',
    ensures
        line.len() > 0 && line.last() == '\r' ==> lines_of(line.push('\n')) == seq![
            line.drop_last(),
        ],
        line.len() == 0 || line.last() != '\r' ==> lines_of(line.push('\n')) == seq![line],
        line.len() > 0 ==> lines_of(line) == seq![line],
        line.len() == 0 ==> lines_of(line) == Seq::<Seq<char>>::empty(),
{
    let s = line.push('\n');
    let n = line.len() as int;
    lemma_line_end(s, n);
    lemma_line_end(line, n);
    assert(s.take(n) =~= line);
    assert(s.skip(n + 1) =~= Seq::empty());
    assert(lines_of(Seq::empty()) =~= Seq::<Seq<char>>::empty());
    assert(lines_of(s) == seq![without_return(line)] + lines_of(s.skip(n + 1)));
    assert(seq![without_return(line)] + Seq::<Seq<char>>::empty() =~= seq![without_return(line)]);
}

/// Adding a name to the file puts it behind the others, and dropping it from the file leaves the
/// others, each as often and in the order as they stand. A name that is not in the file can be
/// dropped from it without change.
pub proof fn law_names_are_added_and_dropped(names: Seq<Seq<char>>, name: Seq<char>)
    requires
        forall|i: int| 0 <= i < names.len() ==> fits_line(#[trigger] names[i]),
        fits_line(name),
        !names.contains(name),
    ensures
        names_in(joined(names.push(name))) == names.push(name),
        names.push(name).filter(|n: Seq<char>| n != name) == names,
        names.filter(|n: Seq<char>| n != name) == names,
        others(names.push(name), name) == names,
{
    let all = names.push(name);
    assert forall|i: int| 0 <= i < all.len() implies fits_line(#[trigger] all[i]) by {
        if i < names.len() {
            assert(all[i] == names[i]);
        }
    }
    law_names_round_trip(all);
    lemma_filter_others(names, name);
    reveal(Seq::filter);
    assert(all.drop_last() =~= names);
    lemma_others(names, name);
}

proof fn lemma_others(names: Seq<Seq<char>>, name: Seq<char>)
    requires
        !names.contains(name),
    ensures
        others(names, name) == names,
        others(names.push(name), name) == names,
    decreases names.len(),
{
    reveal(Seq::filter);
    if names.len() > 0 {
        let rest = names.drop_last();
        assert(names[names.len() - 1] == names.last());
        assert forall|i: int| 0 <= i < rest.len() implies rest[i] != name by {
            assert(rest[i] == names[i]);
        }
        lemma_others(rest, name);
        assert(rest.push(names.last()) =~= names);
    }
    assert(names.push(name).drop_last() =~= names);
}

proof fn lemma_filter_others(names: Seq<Seq<char>>, name: Seq<char>)
    requires
        !names.contains(name),
    ensures
        names.filter(|n: Seq<char>| n != name) == names,
    decreases names.len(),
{
    reveal(Seq::filter);
    if names.len() > 0 {
        let rest = names.drop_last();
        assert(!rest.contains(name)) by {
            if rest.contains(name) {
                let i = rest.index_of(name);
                assert(names[i] == name);
            }
        }
        lemma_filter_others(rest, name);
        assert(names[names.len() - 1] != name) by {
            if names[names.len() - 1] == name {
                assert(names.contains(name));
            }
        }
        assert(rest.push(names.last()) =~= names);
    }
}

/// A name that is added to the file is listed in it, behind those that were listed. One that is listed
/// already is not added.
#[verifier::rlimit(50)]
pub proof fn law_name_is_added(
    names: &Vec<String>,
    name: &str,
    contents: String,
    text: &str,
    added: Option<String>,
    new_text: &str,
    listed: Vec<String>,
)
    requires
        call_ensures(join_names, (names,), contents),
        text@ == contents@,
        call_ensures(with_name, (text, name), added),
        added matches Some(new) ==> new_text@ == new@,
        call_ensures(listed_names, (new_text,), listed),
        forall|i: int| 0 <= i < names@.len() ==> fits_line((#[trigger] names@[i])@),
        fits_line(name@),
    ensures
        added is None <==> strings_view(names@).contains(name@),
        added is Some ==> strings_view(listed@) == strings_view(names@).push(name@),
{
    let all = strings_view(names@);
    lemma_all_fit(names@, all);
    law_names_round_trip(all);
    if !all.contains(name@) {
        law_names_are_added_and_dropped(all, name@);
    }
}

proof fn lemma_all_fit(names: Seq<String>, all: Seq<Seq<char>>)
    requires
        all == strings_view(names),
        forall|i: int| 0 <= i < names.len() ==> fits_line((#[trigger] names[i])@),
    ensures
        forall|i: int| 0 <= i < all.len() ==> fits_line(#[trigger] all[i]),
{
    assert forall|i: int| 0 <= i < all.len() implies fits_line(#[trigger] all[i]) by {
        assert(fits_line(names[i]@));
    }
}

/// A name that is dropped from the file is not listed in it, and the others are, in order.
#[verifier::rlimit(50)]
pub proof fn law_name_is_dropped(
    names: &Vec<String>,
    more: &Vec<String>,
    name: &str,
    contents: String,
    more_contents: String,
    text: &str,
    dropped: String,
)
    requires
        call_ensures(join_names, (names,), contents),
        call_ensures(join_names, (more,), more_contents),
        strings_view(more@) == strings_view(names@).push(name@),
        text@ == more_contents@,
        call_ensures(without_name, (text, name), dropped),
        forall|i: int| 0 <= i < names@.len() ==> fits_line((#[trigger] names@[i])@),
        fits_line(name@),
        !strings_view(names@).contains(name@),
    ensures
        dropped@ == contents@,
{
    let all = strings_view(names@);
    lemma_all_fit(names@, all);
    law_names_are_added_and_dropped(all, name@);
}

/// Lines that are written, each with an end of line behind it, are the lines that are read.
pub proof fn law_lines_are_read(a: &str, line: Seq<char>, all: &str, of_a: Vec<String>, of_all: Vec<String>)
    requires
        call_ensures(lines, (a,), of_a),
        call_ensures(lines, (all,), of_all),
        all@ == a@ + line.push('\n'),
        a@.len() > 0 ==> a@.last() == '\n',
        forall|i: int| 0 <= i < line.len() ==> #[trigger] line[i] != '\n',
        line.len() > 0 ==> line.last() != '\r',
    ensures
        strings_view(of_all@) == strings_view(of_a@).push(line),
{
    law_lines_of_parts(a@, line.push('\n'));
    law_one_line(line);
    assert(lines_of(a@) + seq![line] =~= lines_of(a@).push(line));
}

} // verus!
