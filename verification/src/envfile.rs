//! Setting a variable in the text of an environment file.
use vstd::prelude::*;
use vstd::string::StrSliceExecFns;
use vstd::string::StringExecFns;

use crate::text::{chars_of, starts_with};

verus! {

/// Where the first line feed of a text stands; its length if there is none.
pub open spec fn line_end(text: Seq<char>) -> int
    decreases text.len(),
{
    if text.len() == 0 || text[0] == '\n' {
        0
    } else {
        1 + line_end(text.skip(1))
    }
}

/// A line without the carriage return in front of its line feed.
pub open spec fn without_return(line: Seq<char>) -> Seq<char> {
    if line.len() > 0 && line.last() == '\r' {
        line.drop_last()
    } else {
        line
    }
}

/// The lines of a text: each ends with a line feed, or with a carriage return and a line
/// feed; at the last one the ending is optional.
pub open spec fn lines_of(text: Seq<char>) -> Seq<Seq<char>>
    decreases text.len(),
{
    let end = line_end(text);
    if text.len() == 0 {
        Seq::empty()
    } else if end < 0 || end >= text.len() {
        seq![text]
    } else {
        seq![without_return(text.take(end))] + lines_of(text.skip(end + 1))
    }
}

/// The line that sets a variable.
pub open spec fn setting(key: Seq<char>, value: Seq<char>) -> Seq<char> {
    key + "="@ + value
}

/// The line sets the variable.
pub open spec fn sets(line: Seq<char>, key: Seq<char>) -> bool {
    (key + "="@).is_prefix_of(line)
}

/// The lines with every line that sets the variable replaced.
pub open spec fn replaced(lines: Seq<Seq<char>>, key: Seq<char>, value: Seq<char>) -> Seq<
    Seq<char>,
> {
    Seq::new(
        lines.len(),
        |i: int|
            if sets(lines[i], key) {
                setting(key, value)
            } else {
                lines[i]
            },
    )
}

/// Some line sets the variable.
pub open spec fn any_sets(lines: Seq<Seq<char>>, key: Seq<char>) -> bool {
    exists|i: int| 0 <= i < lines.len() && sets(#[trigger] lines[i], key)
}

/// The lines after the variable was set: lines that set it are replaced; if there is
/// none, one is added at the end.
pub open spec fn with_setting(lines: Seq<Seq<char>>, key: Seq<char>, value: Seq<char>) -> Seq<
    Seq<char>,
> {
    if any_sets(lines, key) {
        replaced(lines, key, value)
    } else {
        lines.push(setting(key, value))
    }
}

/// A text of the given lines, each ended with a line feed.
pub open spec fn text_of(lines: Seq<Seq<char>>) -> Seq<char>
    decreases lines.len(),
{
    if lines.len() == 0 {
        Seq::empty()
    } else {
        text_of(lines.drop_last()) + lines.last() + "\n"@
    }
}

fn find_line_end(chars: &Vec<char>, from: usize) -> (end: usize)
    requires
        from <= chars.len(),
    ensures
        from <= end <= chars@.len(),
        end - from == line_end(chars@.skip(from as int)),
{
    let mut end: usize = from;
    let ghost text = chars@.skip(from as int);
    assert(chars@.skip(end as int) =~= text);
    while end < chars.len() && chars[end] != '\n'
        invariant
            from <= end <= chars@.len(),
            text == chars@.skip(from as int),
            line_end(text) == (end - from) + line_end(chars@.skip(end as int)),
        decreases chars@.len() - end,
    {
        assert(chars@.skip(end as int).skip(1) =~= chars@.skip(end + 1));
        end += 1;
    }
    end
}

/// Sets a variable in the text of an environment file.
pub fn upsert_env(existing: &str, key: &str, value: &str) -> (text: String)
    ensures
        text@ == text_of(with_setting(lines_of(existing@), key@, value@)),
{
    let ghost lines = lines_of(existing@);
    let chars = chars_of(existing);
    let mut prefix = key.to_owned();
    prefix.append("=");
    let mut line_text = prefix.clone();
    line_text.append(value);
    assert(line_text@ =~= setting(key@, value@));
    let mut text = String::new();
    let mut found = false;
    let mut from: usize = 0;
    let ghost mut done: int = 0;
    proof {
        assert(chars@.skip(0) =~= existing@);
        assert(lines.skip(0) =~= lines);
        assert(replaced(lines.take(0), key@, value@) =~= Seq::<Seq<char>>::empty());
    }
    while from < chars.len()
        invariant
            chars@ == existing@,
            lines == lines_of(existing@),
            prefix@ == key@ + "="@,
            line_text@ == setting(key@, value@),
            from <= chars@.len(),
            0 <= done <= lines.len(),
            lines.skip(done) == lines_of(chars@.skip(from as int)),
            text@ == text_of(replaced(lines.take(done), key@, value@)),
            found == any_sets(lines.take(done), key@),
        decreases chars@.len() - from,
    {
        let end = find_line_end(&chars, from);
        let ghost rest = chars@.skip(from as int);
        let mut to: usize = end;
        if end < chars.len() && end > from && chars[end - 1] == '\r' {
            to = end - 1;
        }
        let line = existing.substring_char(from, to);
        proof {
            if end < chars@.len() {
                assert(rest.take(end - from) =~= chars@.subrange(from as int, end as int));
                assert(line@ =~= without_return(rest.take(end - from)));
                assert(rest.skip(end - from + 1) =~= chars@.skip(end + 1));
                assert(lines.skip(done + 1) =~= lines.skip(done).skip(1));
                assert(lines.skip(done).skip(1) =~= lines_of(chars@.skip(end + 1)));
            } else {
                assert(line@ =~= rest);
                assert(lines.skip(done + 1) =~= lines.skip(done).skip(1));
                assert(lines.skip(done).skip(1) =~= Seq::<Seq<char>>::empty());
            }
            assert(lines.skip(done)[0] == line@);
            assert(lines[done] == line@);
        }
        let is_setting = starts_with(line, prefix.as_str());
        if is_setting {
            text.append(line_text.as_str());
            found = true;
        } else {
            text.append(line);
        }
        text.append("\n");
        proof {
            let before = lines.take(done);
            let now = lines.take(done + 1);
            assert(now =~= before.push(line@));
            let written = replaced(now, key@, value@);
            assert(written.drop_last() =~= replaced(before, key@, value@));
            assert(text@ =~= text_of(written));
            assert(any_sets(now, key@) == (any_sets(before, key@) || sets(line@, key@))) by {
                if any_sets(before, key@) {
                    let i = choose|i: int|
                        0 <= i < before.len() && sets(#[trigger] before[i], key@);
                    assert(sets(now[i], key@));
                }
                if sets(line@, key@) {
                    assert(sets(now[done], key@));
                }
                if any_sets(now, key@) {
                    let i = choose|i: int| 0 <= i < now.len() && sets(#[trigger] now[i], key@);
                    if i < done {
                        assert(sets(before[i], key@));
                    }
                }
            }
            done = done + 1;
        }
        if end < chars.len() {
            from = end + 1;
        } else {
            from = end;
            assert(chars@.skip(from as int) =~= Seq::<char>::empty());
        }
    }
    proof {
        assert(chars@.skip(from as int) =~= Seq::<char>::empty());
        assert(lines.skip(done).len() == 0);
        assert(lines.take(done) =~= lines);
    }
    if !found {
        text.append(line_text.as_str());
        text.append("\n");
        proof {
            assert(replaced(lines, key@, value@) =~= lines) by {
                assert forall|i: int| 0 <= i < lines.len() implies replaced(
                    lines,
                    key@,
                    value@,
                )[i] == lines[i] by {
                    assert(!sets(lines[i], key@));
                }
            }
            let all = lines.push(setting(key@, value@));
            assert(all.drop_last() =~= lines);
            assert(text@ =~= text_of(all));
        }
    }
    text
}

/// Once set, the variable is set to the value by every line that sets it, by at least
/// one; all other lines stay as they are, in their order.
pub proof fn law_variable_is_set(lines: Seq<Seq<char>>, key: Seq<char>, value: Seq<char>)
    ensures
        ({
            let after = with_setting(lines, key, value);
            &&& any_sets(after, key)
            &&& forall|i: int|
                0 <= i < after.len() && sets(#[trigger] after[i], key) ==> after[i] == setting(
                    key,
                    value,
                )
            &&& forall|i: int|
                0 <= i < lines.len() && !sets(#[trigger] lines[i], key) ==> after[i] == lines[i]
        }),
{
    let after = with_setting(lines, key, value);
    let line = setting(key, value);
    assert(sets(line, key)) by {
        assert(line.take((key + "="@).len() as int) =~= key + "="@);
    }
    if any_sets(lines, key) {
        let i = choose|i: int| 0 <= i < lines.len() && sets(#[trigger] lines[i], key);
        assert(sets(after[i], key));
        assert forall|k: int| 0 <= k < after.len() && sets(#[trigger] after[k], key) implies after[k]
            == line by {
            assert(after[k] == if sets(lines[k], key) {
                line
            } else {
                lines[k]
            });
        }
    } else {
        assert(sets(after[lines.len() as int], key));
        assert forall|k: int| 0 <= k < after.len() && sets(#[trigger] after[k], key) implies after[k]
            == line by {
            if k < lines.len() {
                assert(sets(lines[k], key));
            }
        }
    }
}

/// A line that a text can hold as it is: no line feed in it, and no carriage return at its end.
pub open spec fn is_line(line: Seq<char>) -> bool {
    &&& forall|i: int| 0 <= i < line.len() ==> #[trigger] line[i] != '\n'
    &&& line.len() > 0 ==> line.last() != '\r'
}

proof fn lemma_line_end(line: Seq<char>, rest: Seq<char>)
    requires
        forall|i: int| 0 <= i < line.len() ==> #[trigger] line[i] != '\n',
    ensures
        line_end(line + seq!['\n'] + rest) == line.len(),
    decreases line.len(),
{
    let text = line + seq!['\n'] + rest;
    if line.len() > 0 {
        assert(text.skip(1) =~= line.skip(1) + seq!['\n'] + rest);
        assert(text[0] == line[0]);
        assert forall|i: int| 0 <= i < line.skip(1).len() implies #[trigger] line.skip(1)[i]
            != '\n' by {
            assert(line.skip(1)[i] == line[i + 1]);
        }
        lemma_line_end(line.skip(1), rest);
    } else {
        assert(text[0] == '\n');
    }
}

proof fn lemma_text_of_front(lines: Seq<Seq<char>>)
    requires
        lines.len() > 0,
    ensures
        text_of(lines) == lines[0] + seq!['\n'] + text_of(lines.skip(1)),
    decreases lines.len(),
{
    reveal_strlit("\n");
    assert("\n"@ =~= seq!['\n']);
    let head = lines.drop_last();
    if lines.len() == 1 {
        assert(head =~= Seq::<Seq<char>>::empty());
        assert(lines.skip(1) =~= Seq::<Seq<char>>::empty());
        assert(text_of(head) =~= Seq::<char>::empty());
        assert(text_of(lines) =~= lines[0] + seq!['\n'] + text_of(lines.skip(1)));
    } else {
        lemma_text_of_front(head);
        assert(head.skip(1) =~= lines.skip(1).drop_last());
        assert(lines.skip(1).last() == lines.last());
        assert(text_of(lines) =~= lines[0] + seq!['\n'] + text_of(lines.skip(1)));
    }
}

/// The lines that make up a text are read back from it, in their order. So what was set is found
/// in the file again, and a line may as well end with a carriage return and a line feed.
pub proof fn law_lines_are_read_back(lines: Seq<Seq<char>>, line: Seq<char>, rest: Seq<char>)
    requires
        forall|i: int| 0 <= i < lines.len() ==> is_line(#[trigger] lines[i]),
        is_line(line),
    ensures
        lines_of(text_of(lines)) == lines,
        lines_of(line + seq!['\r', '\n'] + rest) == seq![line] + lines_of(rest),
        lines_of(line + seq!['\n'] + rest) == seq![line] + lines_of(rest),
        line.len() > 0 ==> lines_of(line) == seq![line],
    decreases lines.len(),
{
    if lines.len() > 0 {
        let tail = lines.skip(1);
        assert forall|i: int| 0 <= i < tail.len() implies is_line(#[trigger] tail[i]) by {
            assert(tail[i] == lines[i + 1]);
        }
        assert(is_line(lines[0]));
        law_lines_are_read_back(tail, lines[0], text_of(tail));
        lemma_text_of_front(lines);
        assert(lines =~= seq![lines[0]] + tail);
    } else {
        assert(lines =~= Seq::<Seq<char>>::empty());
        assert(text_of(lines) =~= Seq::<char>::empty());
        assert(lines_of(Seq::<char>::empty()) =~= lines);
    }
    let text = line + seq!['\n'] + rest;
    lemma_line_end(line, rest);
    assert(text.take(line.len() as int) =~= line);
    assert(text.skip(line.len() as int + 1) =~= rest);
    let returned = line.push('\r');
    let text = returned + seq!['\n'] + rest;
    lemma_line_end(returned, rest);
    assert(text =~= line + seq!['\r', '\n'] + rest);
    assert(text.take(returned.len() as int) =~= returned);
    assert(text.skip(returned.len() as int + 1) =~= rest);
    assert(without_return(returned) =~= line);
    lemma_no_line_end(line);
}

proof fn lemma_no_line_end(line: Seq<char>)
    requires
        forall|i: int| 0 <= i < line.len() ==> #[trigger] line[i] != '\n',
    ensures
        line_end(line) == line.len(),
    decreases line.len(),
{
    if line.len() > 0 {
        assert forall|i: int| 0 <= i < line.skip(1).len() implies #[trigger] line.skip(1)[i]
            != '\n' by {
            assert(line.skip(1)[i] == line[i + 1]);
        }
        lemma_no_line_end(line.skip(1));
    }
}

/// Setting a variable writes its name, an equals sign and its value, in place of every line that
/// begins with the first two; the number of lines grows by one where there was none.
pub proof fn law_setting_is_name_and_value(lines: Seq<Seq<char>>, key: Seq<char>, value: Seq<char>)
    ensures
        ({
            let after = with_setting(lines, key, value);
            let line = key.push('=') + value;
            &&& forall|i: int|
                0 <= i < lines.len() ==> #[trigger] after[i] == if key.push('=').is_prefix_of(
                    lines[i],
                ) {
                    line
                } else {
                    lines[i]
                }
            &&& after.len() == lines.len() || (after.len() == lines.len() + 1 && after.last()
                == line && forall|i: int|
                0 <= i < lines.len() ==> !key.push('=').is_prefix_of(#[trigger] lines[i]))
        }),
{
    reveal_strlit("=");
    assert(key + "="@ =~= key.push('='));
    let after = with_setting(lines, key, value);
    if !any_sets(lines, key) {
        assert forall|i: int| 0 <= i < lines.len() implies !sets(#[trigger] lines[i], key) by {}
    }
}

} // verus!
