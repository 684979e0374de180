//! A parsed document (JSON or TOML) held as a tree of plain values, and the
//! reads of its members that the decoders make.
use vstd::prelude::*;

verus! {

/// A parsed value. Numbers and dates are kept as the text that writes them.
#[derive(Debug)]
pub enum Tree {
    Null,
    Bool(bool),
    Number(String),
    Str(String),
    Datetime(String),
    Array(Vec<Tree>),
    Object(Vec<(String, Tree)>),
}

/// The first member called `name` among `fields`.
pub open spec fn member(fields: Seq<(String, Tree)>, name: Seq<char>) -> Option<Tree>
    decreases fields.len(),
{
    if fields.len() == 0 {
        None
    } else if fields[0].0@ == name {
        Some(fields[0].1)
    } else {
        member(fields.drop_first(), name)
    }
}

/// The member `name` of an object; nothing for another value.
pub open spec fn field(t: Option<Tree>, name: Seq<char>) -> Option<Tree> {
    match t {
        Some(Tree::Object(fs)) => member(fs@, name),
        _ => None,
    }
}

/// The text of a string value.
pub open spec fn text_value(t: Option<Tree>) -> Option<String> {
    match t {
        Some(Tree::Str(s)) => Some(s),
        _ => None,
    }
}

/// The strings of `items`, where every item is a string.
pub open spec fn all_strings(items: Seq<Tree>) -> Option<Seq<String>>
    decreases items.len(),
{
    if items.len() == 0 {
        Some(Seq::empty())
    } else {
        match items[0] {
            Tree::Str(s) => match all_strings(items.drop_first()) {
                Some(rest) => Some(seq![s] + rest),
                None => None,
            },
            _ => None,
        }
    }
}

/// The strings of an array of strings.
pub open spec fn string_list(t: Option<Tree>) -> Option<Seq<String>> {
    match t {
        Some(Tree::Array(items)) => all_strings(items@),
        _ => None,
    }
}

/// The member `name` of the object `t`.
pub fn field_of<'t>(t: &'t Tree, name: &str) -> (r: Option<&'t Tree>)
    ensures
        match r {
            Some(x) => field(Some(*t), name@) == Some(*x),
            None => field(Some(*t), name@) is None,
        },
{
    let fields = match t {
        Tree::Object(fs) => fs,
        _ => return None,
    };
    let target = name.to_owned();
    let mut i: usize = 0;
    assert(fields@.subrange(0, fields@.len() as int) =~= fields@);
    while i < fields.len()
        invariant
            i <= fields@.len(),
            *t == Tree::Object(*fields),
            target@ == name@,
            member(fields@, name@) == member(fields@.subrange(i as int, fields@.len() as int), name@),
        decreases fields@.len() - i,
    {
        assert(fields@.subrange(i as int, fields@.len() as int).drop_first() =~= fields@.subrange(
            i + 1,
            fields@.len() as int,
        ));
        if fields[i].0 == target {
            return Some(&fields[i].1);
        }
        i += 1;
    }
    None
}

/// The text of the string value `t`.
pub fn text_of_value(t: Option<&Tree>) -> (r: Option<String>)
    ensures
        r == text_value(match t {
            Some(x) => Some(*x),
            None => None,
        }),
{
    match t {
        Some(Tree::Str(s)) => Some(s.clone()),
        _ => None,
    }
}

/// The strings of the array of strings `t`.
pub fn strings_of_value(t: Option<&Tree>) -> (r: Option<Vec<String>>)
    ensures
        match r {
            Some(v) => string_list(
                match t {
                    Some(x) => Some(*x),
                    None => None,
                },
            ) == Some(v@),
            None => string_list(
                match t {
                    Some(x) => Some(*x),
                    None => None,
                },
            ) is None,
        },
{
    let x = match t {
        Some(x) => x,
        None => return None,
    };
    let items = match x {
        Tree::Array(items) => items,
        _ => return None,
    };
    let mut out: Vec<String> = Vec::new();
    let mut i: usize = 0;
    assert(items@.subrange(0, items@.len() as int) =~= items@);
    while i < items.len()
        invariant
            i <= items@.len(),
            *x == Tree::Array(*items),
            t == Some(x),
            all_strings(items@) == match all_strings(items@.subrange(i as int, items@.len() as int)) {
                Some(rest) => Some(out@ + rest),
                None => None,
            },
        decreases items@.len() - i,
    {
        let ghost tail = items@.subrange(i as int, items@.len() as int);
        assert(tail.drop_first() =~= items@.subrange(i + 1, items@.len() as int));
        match &items[i] {
            Tree::Str(s) => {
                let ghost before = out@;
                out.push(s.clone());
                proof {
                    match all_strings(tail.drop_first()) {
                        Some(rest) => {
                            assert(before + (seq![*s] + rest) =~= out@ + rest);
                        },
                        None => {},
                    }
                }
            },
            _ => return None,
        }
        i += 1;
    }
    assert(items@.subrange(i as int, items@.len() as int) =~= Seq::<Tree>::empty());
    assert(out@ + Seq::<String>::empty() =~= out@);
    assert(all_strings(Seq::<Tree>::empty()) == Some(Seq::<String>::empty()));
    assert(all_strings(items@) == Some(out@));
    assert(*x == Tree::Array(*items));
    Some(out)
}

} // verus!
