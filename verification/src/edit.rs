//! `levi edit`: metadata edits are ordinary SET events; concurrent edits
//! settle by last-writer-wins on every node identically. This is the edit
//! itself: the new task a set of edits makes of the old.

use vstd::prelude::*;

use crate::entities::{parse_priority, Priority, Task};
use crate::text::{concat, copy_string, str_eq};
use vstd::string::StrSliceExecFns;

verus! {

/// Why an edit was refused.
#[derive(Debug, Clone, PartialEq, Eq)]
pub enum EditError {
    /// The priority given is not one of p0..p3.
    InvalidPriority(String),
    /// No edit was asked for.
    NothingToEdit,
}

impl EditError {
    /// The message shown to the user.
    pub fn message(&self) -> (r: String)
        ensures
            r@ == match self {
                EditError::InvalidPriority(p) => "invalid priority '"@ + p@ + "' (use p0..p3)"@,
                EditError::NothingToEdit => "nothing to edit (use -p, --title, -b, or -l)"@,
            },
    {
        match self {
            EditError::InvalidPriority(p) => {
                let a = concat("invalid priority '", p.as_str());
                concat(a.as_str(), "' (use p0..p3)")
            },
            EditError::NothingToEdit => "nothing to edit (use -p, --title, -b, or -l)".to_owned(),
        }
    }
}

/// One label edit: `-x` removes every `x`; `+x` or `x` adds `x` unless present.
pub open spec fn apply_label(ls: Seq<Seq<char>>, e: Seq<char>) -> Seq<Seq<char>> {
    if e.len() > 0 && e[0] == '-' {
        ls.filter(|l: Seq<char>| l != e.drop_first())
    } else {
        let a = if e.len() > 0 && e[0] == '+' {
            e.drop_first()
        } else {
            e
        };
        if ls.contains(a) {
            ls
        } else {
            ls.push(a)
        }
    }
}

/// The label edits applied in order.
pub open spec fn apply_labels(ls: Seq<Seq<char>>, es: Seq<Seq<char>>) -> Seq<Seq<char>>
    decreases es.len(),
{
    if es.len() == 0 {
        ls
    } else {
        apply_label(apply_labels(ls, es.drop_last()), es.last())
    }
}

/// The views of a list of strings.
pub open spec fn label_views(v: Seq<String>) -> Seq<Seq<char>> {
    v.map_values(|s: String| s@)
}

/// `labels` with every `x` removed.
fn without(labels: &Vec<String>, x: &str) -> (r: Vec<String>)
    ensures
        label_views(r@) == label_views(labels@).filter(|l: Seq<char>| l != x@),
{
    let ghost pred = |l: Seq<char>| l != x@;
    let mut out: Vec<String> = Vec::new();
    let mut i: usize = 0;
    while i < labels.len()
        invariant
            i <= labels@.len(),
            pred == (|l: Seq<char>| l != x@),
            label_views(out@) == label_views(labels@.subrange(0, i as int)).filter(pred),
        decreases labels@.len() - i,
    {
        let ghost before = out@;
        proof {
            reveal(Seq::filter);
            assert(label_views(labels@.subrange(0, i + 1)).drop_last() =~= label_views(labels@.subrange(0, i as int)));
            assert(label_views(labels@.subrange(0, i + 1)).last() == labels@[i as int]@);
        }
        if !str_eq(labels[i].as_str(), x) {
            out.push(copy_string(&labels[i]));
            assert(label_views(out@) =~= label_views(before).push(labels@[i as int]@));
        } else {
            assert(label_views(out@) =~= label_views(before));
        }
        i = i + 1;
    }
    assert(labels@.subrange(0, labels@.len() as int) =~= labels@);
    out
}

/// Whether `x` is one of `labels`.
fn has_label(labels: &Vec<String>, x: &str) -> (r: bool)
    ensures
        r == label_views(labels@).contains(x@),
{
    let mut i: usize = 0;
    while i < labels.len()
        invariant
            i <= labels@.len(),
            forall|j: int| 0 <= j < i ==> labels@[j]@ != x@,
        decreases labels@.len() - i,
    {
        if str_eq(labels[i].as_str(), x) {
            assert(label_views(labels@)[i as int] == x@);
            return true;
        }
        i = i + 1;
    }
    false
}

/// Apply one label edit.
fn edit_label(labels: Vec<String>, e: &str) -> (r: Vec<String>)
    ensures
        label_views(r@) == apply_label(label_views(labels@), e@),
{
    let n = e.unicode_len();
    if n > 0 && e.get_char(0) == '-' {
        let x = e.substring_char(1, n);
        assert(x@ =~= e@.drop_first());
        without(&labels, x)
    } else {
        let a = if n > 0 && e.get_char(0) == '+' {
            let x = e.substring_char(1, n);
            assert(x@ =~= e@.drop_first());
            x
        } else {
            e
        };
        if has_label(&labels, a) {
            labels
        } else {
            let mut out = labels;
            let ghost before = out@;
            out.push(a.to_owned());
            assert(label_views(out@) =~= label_views(before).push(a@));
            out
        }
    }
}

/// Apply `levi edit`'s flags to `task`: a new priority (p0..p3), title and
/// body, then the label edits in order (`-x` removes, `+x` or `x` adds).
pub fn edit_task(
    task: &Task,
    priority: Option<&str>,
    title: Option<String>,
    labels: &Vec<String>,
    body: Option<String>,
) -> (r: Result<Task, EditError>)
    ensures
        match priority {
            Some(p) if parse_priority(p@).is_none() => r is Err && r->Err_0 is InvalidPriority && (r->Err_0->InvalidPriority_0)@ == p@,
            _ => if priority.is_none() && title.is_none() && body.is_none() && labels@.len() == 0 {
                r == Err::<Task, EditError>(EditError::NothingToEdit)
            } else {
                &&& r is Ok
                &&& r->Ok_0.id == task.id
                &&& r->Ok_0.project_id == task.project_id
                &&& r->Ok_0.priority == match priority {
                    Some(p) => parse_priority(p@).unwrap(),
                    None => task.priority,
                }
                &&& r->Ok_0.title == match title {
                    Some(x) => x,
                    None => task.title,
                }
                &&& r->Ok_0.body == match body {
                    Some(x) => x,
                    None => task.body,
                }
                &&& label_views(r->Ok_0.labels@) == apply_labels(label_views(task.labels@), label_views(labels@))
                &&& r->Ok_0.created_by_dev == task.created_by_dev
                &&& r->Ok_0.created_by_machine == task.created_by_machine
                &&& r->Ok_0.created == task.created
            },
        },
{
    let new_priority = match priority {
        Some(p) => match Priority::parse(p) {
            Some(x) => x,
            None => return Err(EditError::InvalidPriority(p.to_owned())),
        },
        None => task.priority,
    };
    if priority.is_none() && title.is_none() && body.is_none() && labels.len() == 0 {
        return Err(EditError::NothingToEdit);
    }
    let mut ls: Vec<String> = Vec::new();
    let mut i: usize = 0;
    while i < task.labels.len()
        invariant
            i <= task.labels@.len(),
            ls@ == task.labels@.subrange(0, i as int),
        decreases task.labels@.len() - i,
    {
        ls.push(copy_string(&task.labels[i]));
        proof {
            assert(ls@ =~= task.labels@.subrange(0, i + 1));
        }
        i = i + 1;
    }
    assert(ls@ =~= task.labels@);
    let mut j: usize = 0;
    assert(label_views(labels@).subrange(0, 0) =~= Seq::<Seq<char>>::empty());
    while j < labels.len()
        invariant
            j <= labels@.len(),
            label_views(ls@) == apply_labels(label_views(task.labels@), label_views(labels@).subrange(0, j as int)),
        decreases labels@.len() - j,
    {
        proof {
            let es = label_views(labels@).subrange(0, j + 1);
            assert(es.drop_last() =~= label_views(labels@).subrange(0, j as int));
            assert(es.last() == labels@[j as int]@);
        }
        ls = edit_label(ls, labels[j].as_str());
        j = j + 1;
    }
    assert(label_views(labels@).subrange(0, labels@.len() as int) =~= label_views(labels@));
    let new_title = match title {
        Some(t) => t,
        None => copy_string(&task.title),
    };
    let new_body = match body {
        Some(b) => b,
        None => copy_string(&task.body),
    };
    Ok(Task {
        id: copy_string(&task.id),
        project_id: copy_string(&task.project_id),
        title: new_title,
        body: new_body,
        priority: new_priority,
        labels: ls,
        created_by_dev: copy_string(&task.created_by_dev),
        created_by_machine: copy_string(&task.created_by_machine),
        created: copy_string(&task.created),
    })
}

} // verus!
