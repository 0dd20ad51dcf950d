//! Interactive rebase. This module holds the todo list model and the
//! reading of the state of a stopped rebase. It calls no git command.
use vstd::prelude::*;

use crate::text::{
    chars_of, parse_u64, parse_uint, push_char, push_str, trim, trim_end_pos, trim_start_pos,
};

verus! {

#[derive(Clone, Copy, PartialEq, Eq, Structural)]
pub enum TodoAction {
    Pick,
    Reword,
    Edit,
    Squash,
    Fixup,
    Drop,
}

/// The word of an action in the git todo file.
pub open spec fn action_word(a: TodoAction) -> Seq<char> {
    match a {
        TodoAction::Pick => "pick"@,
        TodoAction::Reword => "reword"@,
        TodoAction::Edit => "edit"@,
        TodoAction::Squash => "squash"@,
        TodoAction::Fixup => "fixup"@,
        TodoAction::Drop => "drop"@,
    }
}

impl TodoAction {
    pub fn word(self) -> (r: &'static str)
        ensures
            r@ == action_word(self),
    {
        match self {
            TodoAction::Pick => "pick",
            TodoAction::Reword => "reword",
            TodoAction::Edit => "edit",
            TodoAction::Squash => "squash",
            TodoAction::Fixup => "fixup",
            TodoAction::Drop => "drop",
        }
    }
}

pub struct TodoItem {
    pub action: TodoAction,
    pub id: String,
    pub subject: String,
}

/// The line of one item in the todo file.
pub open spec fn todo_line(item: TodoItem) -> Seq<char> {
    action_word(item.action) + seq![' '] + item.id@ + seq![' '] + item.subject@ + seq!['\n']
}

/// The todo file for a list in display order: the last item first.
pub open spec fn todo_text(items: Seq<TodoItem>) -> Seq<char>
    decreases items.len(),
{
    if items.len() == 0 {
        seq![]
    } else {
        todo_line(items.last()) + todo_text(items.drop_last())
    }
}

/// Make the text of the git todo file. The list comes in display order, the
/// newest commit first. The git todo file needs the oldest commit first.
pub fn serialize(items: &[TodoItem]) -> (r: String)
    ensures
        r@ == todo_text(items@),
{
    let mut out = String::new();
    let mut k = items.len();
    assert(items@.take(items@.len() as int) =~= items@);
    assert(out@ + todo_text(items@) =~= todo_text(items@));
    while k > 0
        invariant
            0 <= k <= items@.len(),
            out@ + todo_text(items@.take(k as int)) == todo_text(items@),
        decreases k,
    {
        let item = &items[k - 1];
        let ghost before = out@;
        push_str(&mut out, item.action.word());
        push_char(&mut out, ' ');
        push_str(&mut out, item.id.as_str());
        push_char(&mut out, ' ');
        push_str(&mut out, item.subject.as_str());
        push_char(&mut out, '\n');
        proof {
            let t = items@.take(k as int);
            assert(t.drop_last() =~= items@.take(k - 1));
            assert(t.last() == items@[k - 1]);
            assert(out@ =~= before + todo_line(items@[k - 1]));
            assert(before + todo_text(t) =~= before + todo_line(items@[k - 1]) + todo_text(
                items@.take(k - 1),
            ));
        }
        k -= 1;
    }
    proof {
        assert(items@.take(0) =~= Seq::<TodoItem>::empty());
        assert(out@ + Seq::<char>::empty() =~= out@);
    }
    out
}

/// The todo file of two lists one after the other is that of the second,
/// then that of the first: an empty list gives no text, one item gives its
/// line.
pub proof fn lemma_todo_concat(a: Seq<TodoItem>, b: Seq<TodoItem>)
    ensures
        todo_text(a + b) == todo_text(b) + todo_text(a),
        todo_text(Seq::<TodoItem>::empty()) == Seq::<char>::empty(),
        b.len() == 1 ==> todo_text(b) == todo_line(b[0]),
    decreases b.len(),
{
    if b.len() == 0 {
        assert(a + b =~= a);
        assert(todo_text(b) + todo_text(a) =~= todo_text(a));
    } else {
        lemma_todo_concat(a, b.drop_last());
        assert((a + b).drop_last() =~= a + b.drop_last());
        assert((a + b).last() == b.last());
        assert(todo_line(b.last()) + (todo_text(b.drop_last()) + todo_text(a)) =~= todo_line(
            b.last(),
        ) + todo_text(b.drop_last()) + todo_text(a));
        if b.len() == 1 {
            assert(b.drop_last() =~= Seq::<TodoItem>::empty());
            assert(todo_line(b[0]) + Seq::<char>::empty() =~= todo_line(b[0]));
        }
    }
}

/// The text inside the quotes: each `'` becomes `'\''`.
pub open spec fn quote_body(s: Seq<char>) -> Seq<char>
    decreases s.len(),
{
    if s.len() == 0 {
        seq![]
    } else {
        quote_body(s.drop_last()) + if s.last() == '\'' {
            seq!['\'', '\\', '\'', '\'']
        } else {
            seq![s.last()]
        }
    }
}

/// Quote a string for a shell command line. Git runs the sequence editor
/// through the shell, thus a path with a space must have quotes.
pub fn sh_quote(s: &str) -> (r: String)
    ensures
        r@ == seq!['\''] + quote_body(s@) + seq!['\''],
{
    let v = chars_of(s);
    let mut out = String::new();
    push_char(&mut out, '\'');
    let mut i: usize = 0;
    while i < v.len()
        invariant
            v@ == s@,
            0 <= i <= v@.len(),
            out@ == seq!['\''] + quote_body(v@.take(i as int)),
        decreases v@.len() - i,
    {
        let c = v[i];
        if c == '\'' {
            push_char(&mut out, '\'');
            push_char(&mut out, '\\');
            push_char(&mut out, '\'');
            push_char(&mut out, '\'');
        } else {
            push_char(&mut out, c);
        }
        proof {
            assert(v@.take(i + 1).drop_last() =~= v@.take(i as int));
        }
        i += 1;
        assert(out@ =~= seq!['\''] + quote_body(v@.take(i as int)));
    }
    push_char(&mut out, '\'');
    assert(v@.take(v@.len() as int) =~= v@);
    out
}

pub struct RebaseInfo {
    pub step: usize,
    pub total: usize,
}

/// The number in a count file of a rebase.
pub open spec fn count_of(text: Seq<char>) -> Option<usize> {
    match parse_uint(trim(text), usize::MAX as nat) {
        Some(n) => Some(n as usize),
        None => None,
    }
}

/// Read the number in the text of a count file.
pub fn num(text: &str) -> (r: Option<usize>)
    ensures
        r == count_of(text@),
{
    let v = chars_of(text);
    let a = trim_start_pos(v.as_slice(), 0, v.len());
    let b = trim_end_pos(v.as_slice(), a, v.len());
    assert(v@.subrange(0, v@.len() as int) =~= v@);
    match parse_u64(v.as_slice(), a, b) {
        Some(n) => if n <= usize::MAX as u64 {
            Some(n as usize)
        } else {
            None
        },
        None => None,
    }
}

/// Report the state of a rebase that stopped, from the texts of its two
/// count files: for a merge rebase msgnum and end, for an apply rebase
/// next and last. None means no rebase is under way. A file that cannot
/// be read or does not hold a number counts as zero.
pub fn detect(counts: Option<(Option<String>, Option<String>)>) -> (r: Option<RebaseInfo>)
    ensures
        match counts {
            None => r is None,
            Some((a, b)) => r matches Some(info) && info.step == (match a {
                Some(t) => match count_of(t@) {
                    Some(n) => n,
                    None => 0,
                },
                None => 0,
            }) && info.total == (match b {
                Some(t) => match count_of(t@) {
                    Some(n) => n,
                    None => 0,
                },
                None => 0,
            }),
        },
{
    match counts {
        None => None,
        Some((a, b)) => {
            let step = match a {
                Some(t) => match num(t.as_str()) {
                    Some(n) => n,
                    None => 0,
                },
                None => 0,
            };
            let total = match b {
                Some(t) => match num(t.as_str()) {
                    Some(n) => n,
                    None => 0,
                },
                None => 0,
            };
            Some(RebaseInfo { step, total })
        },
    }
}

} // verus!
