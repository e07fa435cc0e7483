//! Rendering: turns one type representation into a printable byte document.
//!
//! Function types print as `a, b -> r`, parenthesized in any non-trivial
//! position; applications as `Name a b`, parenthesized only inside a type
//! parameter; records as `{ f : T }`; tag unions as `[ Tag a b ]`; recursive
//! tag unions append ` as <recursion variable>`.  Row entries are rendered in
//! a stable order, sorted lexicographically by name.

use crate::name::{clone_name, lex_le, Name};
use crate::types::{
    fields_model, lemma_fields_model, lemma_list_model, lemma_tags_model, list_model, tags_model,
    type_model, ErrorType, ExtModel, TypeExt, TypeModel,
};
use vstd::prelude::*;

verus! {

/// The position a document is rendered in, deciding parenthesization.
#[derive(Clone, Copy, Debug, PartialEq, Eq)]
pub enum Parens {
    /// Top level: nothing is parenthesized.
    Unnecessary,
    /// Inside a function's argument or return position.
    InFn,
    /// Inside a type application's parameter position.
    InTypeParam,
}

// ---- textual atoms ----

pub open spec fn txt_lparen() -> Seq<u8> {
    seq![40u8]
}

pub open spec fn txt_rparen() -> Seq<u8> {
    seq![41u8]
}

pub open spec fn txt_comma_space() -> Seq<u8> {
    seq![44u8, 32u8]
}

pub open spec fn txt_arrow() -> Seq<u8> {
    seq![32u8, 45u8, 62u8, 32u8]
}

pub open spec fn txt_space() -> Seq<u8> {
    seq![32u8]
}

pub open spec fn txt_colon() -> Seq<u8> {
    seq![32u8, 58u8, 32u8]
}

pub open spec fn txt_open_record() -> Seq<u8> {
    seq![123u8, 32u8]
}

pub open spec fn txt_close_record() -> Seq<u8> {
    seq![32u8, 125u8]
}

pub open spec fn txt_empty_record() -> Seq<u8> {
    seq![123u8, 125u8]
}

pub open spec fn txt_open_union() -> Seq<u8> {
    seq![91u8, 32u8]
}

pub open spec fn txt_close_union() -> Seq<u8> {
    seq![32u8, 93u8]
}

pub open spec fn txt_empty_union() -> Seq<u8> {
    seq![91u8, 93u8]
}

pub open spec fn txt_as() -> Seq<u8> {
    seq![32u8, 97u8, 115u8, 32u8]
}

/// The UTF-8 bytes of the infinity sign.
pub open spec fn txt_infinity() -> Seq<u8> {
    seq![0xe2u8, 0x88u8, 0x9eu8]
}

pub open spec fn txt_question() -> Seq<u8> {
    seq![63u8]
}

pub open spec fn txt_true() -> Seq<u8> {
    seq![116u8, 114u8, 117u8, 101u8]
}

pub open spec fn txt_false() -> Seq<u8> {
    seq![102u8, 97u8, 108u8, 115u8, 101u8]
}

// ---- spec-level document construction ----

/// The models of a sequence of rendered texts.
pub open spec fn texts_model(s: Seq<Vec<u8>>) -> Seq<Seq<u8>> {
    s.map_values(|x: Vec<u8>| x@)
}

/// The models of rendered record entries.
pub open spec fn rentries_model(s: Seq<(Name, Vec<u8>)>) -> Seq<(Seq<u8>, Seq<u8>)> {
    s.map_values(|e: (Name, Vec<u8>)| (e.0@, e.1@))
}

/// The models of rendered tag entries.
pub open spec fn tentries_model(s: Seq<(Name, Vec<Vec<u8>>)>) -> Seq<(Seq<u8>, Seq<Seq<u8>>)> {
    s.map_values(|e: (Name, Vec<Vec<u8>>)| (e.0@, texts_model(e.1@)))
}

/// The model of an optional text.
pub open spec fn opt_model(o: Option<Vec<u8>>) -> Option<Seq<u8>> {
    match o {
        Option::None => Option::None,
        Option::Some(t) => Option::Some(t@),
    }
}

/// The text of an optional text: nothing when absent.
pub open spec fn opt_text(o: Option<Seq<u8>>) -> Seq<u8> {
    match o {
        Option::None => Seq::empty(),
        Option::Some(t) => t,
    }
}

/// Parts joined by a separator.
pub open spec fn join(parts: Seq<Seq<u8>>, sep: Seq<u8>) -> Seq<u8>
    decreases parts.len(),
{
    if parts.len() == 0 {
        Seq::empty()
    } else if parts.len() == 1 {
        parts[0]
    } else {
        join(parts.drop_last(), sep) + sep + parts.last()
    }
}

/// A function document: `arg, arg -> ret`, parenthesized in any position but
/// the trivial one.
pub open spec fn doc_function(pos: Parens, args: Seq<Seq<u8>>, ret: Seq<u8>) -> Seq<u8> {
    let core = join(args, txt_comma_space()) + txt_arrow() + ret;
    if pos is Unnecessary {
        core
    } else {
        txt_lparen() + core + txt_rparen()
    }
}

/// An application document: `Name arg arg`, parenthesized only inside a type
/// parameter; a bare name when there are no arguments.
pub open spec fn doc_apply(pos: Parens, name: Seq<u8>, args: Seq<Seq<u8>>) -> Seq<u8> {
    if args.len() == 0 {
        name
    } else {
        let core = name + txt_space() + join(args, txt_space());
        if pos is InTypeParam {
            txt_lparen() + core + txt_rparen()
        } else {
            core
        }
    }
}

/// The line of one record entry: `name : value`.
pub open spec fn record_line(e: (Seq<u8>, Seq<u8>)) -> Seq<u8> {
    e.0 + txt_colon() + e.1
}

/// The lines of record entries.
pub open spec fn record_lines(entries: Seq<(Seq<u8>, Seq<u8>)>) -> Seq<Seq<u8>>
    decreases entries.len(),
{
    if entries.len() == 0 {
        Seq::empty()
    } else {
        record_lines(entries.drop_last()).push(record_line(entries.last()))
    }
}

/// A record document: `{ f : T, g : U }` with the extension appended, `{}`
/// when empty.
pub open spec fn doc_record(entries: Seq<(Seq<u8>, Seq<u8>)>, ext: Option<Seq<u8>>) -> Seq<u8> {
    if entries.len() == 0 {
        txt_empty_record() + opt_text(ext)
    } else {
        txt_open_record() + join(record_lines(entries), txt_comma_space()) + txt_close_record()
            + opt_text(ext)
    }
}

/// The line of one tag entry: `Tag arg arg`, or the bare tag name.
pub open spec fn tag_line(e: (Seq<u8>, Seq<Seq<u8>>)) -> Seq<u8> {
    if e.1.len() == 0 {
        e.0
    } else {
        e.0 + txt_space() + join(e.1, txt_space())
    }
}

/// The lines of tag entries.
pub open spec fn tag_lines(entries: Seq<(Seq<u8>, Seq<Seq<u8>>)>) -> Seq<Seq<u8>>
    decreases entries.len(),
{
    if entries.len() == 0 {
        Seq::empty()
    } else {
        tag_lines(entries.drop_last()).push(tag_line(entries.last()))
    }
}

/// A tag-union document: `[ Tag a b, Tag ]` with the extension appended,
/// `[]` when empty.
pub open spec fn doc_tag_union(entries: Seq<(Seq<u8>, Seq<Seq<u8>>)>, ext: Option<Seq<u8>>) -> Seq<
    u8,
> {
    if entries.len() == 0 {
        txt_empty_union() + opt_text(ext)
    } else {
        txt_open_union() + join(tag_lines(entries), txt_comma_space()) + txt_close_union()
            + opt_text(ext)
    }
}

/// A recursive tag-union document: the union followed by ` as <recursion
/// variable>`; an empty union stays bare.
pub open spec fn doc_recursive_tag_union(
    rec_var: Seq<u8>,
    entries: Seq<(Seq<u8>, Seq<Seq<u8>>)>,
    ext: Option<Seq<u8>>,
) -> Seq<u8> {
    if entries.len() == 0 {
        txt_empty_union() + opt_text(ext)
    } else {
        txt_open_union() + join(tag_lines(entries), txt_comma_space()) + txt_close_union()
            + opt_text(ext) + txt_as() + rec_var
    }
}

// ---- executable document construction ----

/// Appends all of `s` to `out`.
pub fn append_bytes(out: &mut Vec<u8>, s: &Vec<u8>)
    ensures
        final(out)@ == old(out)@ + s@,
{
    let mut i: usize = 0;
    while i < s.len()
        invariant
            i <= s@.len(),
            out@ == old(out)@ + s@.subrange(0, i as int),
        decreases s@.len() - i,
    {
        out.push(s[i]);
        proof {
            assert(old(out)@ + s@.subrange(0, i + 1 as int) =~= (old(out)@ + s@.subrange(
                0,
                i as int,
            )).push(s@[i as int]));
        }
        i = i + 1;
    }
    proof {
        assert(s@.subrange(0, s@.len() as int) =~= s@);
    }
}

fn comma_space() -> (r: Vec<u8>)
    ensures
        r@ == txt_comma_space(),
{
    let mut r: Vec<u8> = Vec::new();
    r.push(44u8);
    r.push(32u8);
    proof {
        assert(r@ =~= txt_comma_space());
    }
    r
}

fn space() -> (r: Vec<u8>)
    ensures
        r@ == txt_space(),
{
    let mut r: Vec<u8> = Vec::new();
    r.push(32u8);
    proof {
        assert(r@ =~= txt_space());
    }
    r
}

fn push_arrow(out: &mut Vec<u8>)
    ensures
        final(out)@ == old(out)@ + txt_arrow(),
{
    out.push(32u8);
    out.push(45u8);
    out.push(62u8);
    out.push(32u8);
    proof {
        assert(out@ =~= old(out)@ + txt_arrow());
    }
}

fn push_colon(out: &mut Vec<u8>)
    ensures
        final(out)@ == old(out)@ + txt_colon(),
{
    out.push(32u8);
    out.push(58u8);
    out.push(32u8);
    proof {
        assert(out@ =~= old(out)@ + txt_colon());
    }
}

fn push_as(out: &mut Vec<u8>)
    ensures
        final(out)@ == old(out)@ + txt_as(),
{
    out.push(32u8);
    out.push(97u8);
    out.push(115u8);
    out.push(32u8);
    proof {
        assert(out@ =~= old(out)@ + txt_as());
    }
}

fn wrap_parens(inner: Vec<u8>) -> (r: Vec<u8>)
    ensures
        r@ == txt_lparen() + inner@ + txt_rparen(),
{
    let mut r: Vec<u8> = Vec::new();
    r.push(40u8);
    append_bytes(&mut r, &inner);
    r.push(41u8);
    proof {
        assert(r@ =~= txt_lparen() + inner@ + txt_rparen());
    }
    r
}

/// Joins rendered parts with a separator.
pub fn join_texts(parts: &Vec<Vec<u8>>, sep: &Vec<u8>) -> (r: Vec<u8>)
    ensures
        r@ == join(texts_model(parts@), sep@),
{
    let mut out: Vec<u8> = Vec::new();
    let mut i: usize = 0;
    while i < parts.len()
        invariant
            i <= parts@.len(),
            out@ == join(texts_model(parts@.subrange(0, i as int)), sep@),
        decreases parts@.len() - i,
    {
        if i > 0 {
            append_bytes(&mut out, sep);
        }
        append_bytes(&mut out, &parts[i]);
        proof {
            let pre = texts_model(parts@.subrange(0, i as int));
            let cur = texts_model(parts@.subrange(0, i + 1 as int));
            assert(cur.drop_last() =~= pre);
            assert(cur.last() == parts@[i as int]@);
            if i == 0 {
                assert(join(cur, sep@) == parts@[0]@);
            }
        }
        i = i + 1;
    }
    proof {
        assert(parts@.subrange(0, parts@.len() as int) =~= parts@);
    }
    out
}

/// Builds a function document from rendered arguments and return type.
pub fn function(parens: Parens, args: Vec<Vec<u8>>, ret: Vec<u8>) -> (r: Vec<u8>)
    ensures
        r@ == doc_function(parens, texts_model(args@), ret@),
{
    let sep = comma_space();
    let mut core = join_texts(&args, &sep);
    push_arrow(&mut core);
    append_bytes(&mut core, &ret);
    match parens {
        Parens::Unnecessary => core,
        _ => wrap_parens(core),
    }
}

/// Builds an application document from a name and rendered arguments.
pub fn apply(parens: Parens, name: Name, args: Vec<Vec<u8>>) -> (r: Vec<u8>)
    ensures
        r@ == doc_apply(parens, name@, texts_model(args@)),
{
    if args.len() == 0 {
        return name;
    }
    let sep = space();
    let joined = join_texts(&args, &sep);
    let mut core = name;
    core.push(32u8);
    proof {
        assert(core@ =~= name@ + txt_space());
    }
    append_bytes(&mut core, &joined);
    match parens {
        Parens::InTypeParam => wrap_parens(core),
        _ => core,
    }
}

fn record_lines_exec(entries: &Vec<(Name, Vec<u8>)>) -> (r: Vec<Vec<u8>>)
    ensures
        texts_model(r@) == record_lines(rentries_model(entries@)),
{
    let mut lines: Vec<Vec<u8>> = Vec::new();
    let mut i: usize = 0;
    while i < entries.len()
        invariant
            i <= entries@.len(),
            texts_model(lines@) == record_lines(rentries_model(entries@.subrange(0, i as int))),
        decreases entries@.len() - i,
    {
        let mut line = clone_name(&entries[i].0);
        push_colon(&mut line);
        append_bytes(&mut line, &entries[i].1);
        lines.push(line);
        proof {
            let pre = rentries_model(entries@.subrange(0, i as int));
            let cur = rentries_model(entries@.subrange(0, i + 1 as int));
            assert(cur.drop_last() =~= pre);
            assert(cur.last() == (entries@[i as int].0@, entries@[i as int].1@));
            assert(texts_model(lines@) =~= record_lines(cur));
        }
        i = i + 1;
    }
    proof {
        assert(entries@.subrange(0, entries@.len() as int) =~= entries@);
    }
    lines
}

/// Builds a record document from rendered entries, in the given order, with
/// the extension appended.
pub fn record(entries: Vec<(Name, Vec<u8>)>, opt_ext: Option<Vec<u8>>) -> (r: Vec<u8>)
    ensures
        r@ == doc_record(rentries_model(entries@), opt_model(opt_ext)),
{
    let ext_text: Vec<u8> = match opt_ext {
        Option::Some(t) => t,
        Option::None => Vec::new(),
    };
    proof {
        assert(rentries_model(entries@).len() == entries@.len());
    }
    if entries.len() == 0 {
        let mut out: Vec<u8> = Vec::new();
        out.push(123u8);
        out.push(125u8);
        proof {
            assert(out@ =~= txt_empty_record());
        }
        append_bytes(&mut out, &ext_text);
        return out;
    }
    let lines = record_lines_exec(&entries);
    let sep = comma_space();
    let joined = join_texts(&lines, &sep);
    let mut out: Vec<u8> = Vec::new();
    out.push(123u8);
    out.push(32u8);
    proof {
        assert(out@ =~= txt_open_record());
    }
    append_bytes(&mut out, &joined);
    out.push(32u8);
    out.push(125u8);
    proof {
        assert(out@ =~= txt_open_record() + joined@ + txt_close_record());
    }
    append_bytes(&mut out, &ext_text);
    out
}

fn tag_lines_exec(entries: &Vec<(Name, Vec<Vec<u8>>)>) -> (r: Vec<Vec<u8>>)
    ensures
        texts_model(r@) == tag_lines(tentries_model(entries@)),
{
    let mut lines: Vec<Vec<u8>> = Vec::new();
    let mut i: usize = 0;
    while i < entries.len()
        invariant
            i <= entries@.len(),
            texts_model(lines@) == tag_lines(tentries_model(entries@.subrange(0, i as int))),
        decreases entries@.len() - i,
    {
        let mut line = clone_name(&entries[i].0);
        if entries[i].1.len() > 0 {
            line.push(32u8);
            proof {
                assert(line@ =~= entries@[i as int].0@ + txt_space());
            }
            let sep = space();
            let joined = join_texts(&entries[i].1, &sep);
            append_bytes(&mut line, &joined);
        }
        lines.push(line);
        proof {
            let pre = tentries_model(entries@.subrange(0, i as int));
            let cur = tentries_model(entries@.subrange(0, i + 1 as int));
            assert(cur.drop_last() =~= pre);
            assert(cur.last() == (entries@[i as int].0@, texts_model(entries@[i as int].1@)));
            assert(texts_model(lines@) =~= tag_lines(cur));
        }
        i = i + 1;
    }
    proof {
        assert(entries@.subrange(0, entries@.len() as int) =~= entries@);
    }
    lines
}

/// Builds a tag-union document from rendered entries, in the given order,
/// with the extension appended.
pub fn tag_union(entries: Vec<(Name, Vec<Vec<u8>>)>, opt_ext: Option<Vec<u8>>) -> (r: Vec<u8>)
    ensures
        r@ == doc_tag_union(tentries_model(entries@), opt_model(opt_ext)),
{
    let ext_text: Vec<u8> = match opt_ext {
        Option::Some(t) => t,
        Option::None => Vec::new(),
    };
    proof {
        assert(tentries_model(entries@).len() == entries@.len());
    }
    if entries.len() == 0 {
        let mut out: Vec<u8> = Vec::new();
        out.push(91u8);
        out.push(93u8);
        proof {
            assert(out@ =~= txt_empty_union());
        }
        append_bytes(&mut out, &ext_text);
        return out;
    }
    let lines = tag_lines_exec(&entries);
    let sep = comma_space();
    let joined = join_texts(&lines, &sep);
    let mut out: Vec<u8> = Vec::new();
    out.push(91u8);
    out.push(32u8);
    proof {
        assert(out@ =~= txt_open_union());
    }
    append_bytes(&mut out, &joined);
    out.push(32u8);
    out.push(93u8);
    proof {
        assert(out@ =~= txt_open_union() + joined@ + txt_close_union());
    }
    append_bytes(&mut out, &ext_text);
    out
}

/// Builds a recursive tag-union document: the union text followed by
/// ` as <recursion variable>` when the union is not empty.
pub fn recursive_tag_union(
    rec_var: Vec<u8>,
    entries: Vec<(Name, Vec<Vec<u8>>)>,
    opt_ext: Option<Vec<u8>>,
) -> (r: Vec<u8>)
    ensures
        r@ == doc_recursive_tag_union(rec_var@, tentries_model(entries@), opt_model(opt_ext)),
{
    proof {
        assert(tentries_model(entries@).len() == entries@.len());
    }
    let empty = entries.len() == 0;
    let mut out = tag_union(entries, opt_ext);
    if !empty {
        push_as(&mut out);
        append_bytes(&mut out, &rec_var);
    }
    out
}

/// The extension's own document: nothing when closed, the variable's name
/// when open.
pub fn ext_to_doc(ext: &TypeExt) -> (r: Option<Vec<u8>>)
    ensures
        opt_model(r) == ext_doc(ext@),
{
    match ext {
        TypeExt::Closed => Option::None,
        TypeExt::FlexOpen(n) => Option::Some(clone_name(n)),
        TypeExt::RigidOpen(n) => Option::Some(clone_name(n)),
    }
}

/// The model of an extension's document.
pub open spec fn ext_doc(e: ExtModel) -> Option<Seq<u8>> {
    match e {
        ExtModel::Closed => Option::None,
        ExtModel::FlexOpen(n) => Option::Some(n),
        ExtModel::RigidOpen(n) => Option::Some(n),
    }
}

// ---- sorting entries by name ----

/// Inserts an entry into a name-sorted sequence of model entries.
pub open spec fn insert_entry<V>(s: Seq<(Seq<u8>, V)>, x: (Seq<u8>, V)) -> Seq<(Seq<u8>, V)>
    decreases s.len(),
{
    if s.len() == 0 {
        seq![x]
    } else if lex_le(s.last().0, x.0) {
        s.push(x)
    } else {
        insert_entry(s.drop_last(), x).push(s.last())
    }
}

/// Model entries sorted by name, lexicographically, by insertion.
pub open spec fn sort_entries<V>(s: Seq<(Seq<u8>, V)>) -> Seq<(Seq<u8>, V)>
    decreases s.len(),
{
    if s.len() == 0 {
        Seq::empty()
    } else {
        insert_entry(sort_entries(s.drop_last()), s.last())
    }
}

/// Inserts an entry into a name-sorted sequence of executable entries.
pub open spec fn insert_entry_sh<V>(s: Seq<(Name, V)>, x: (Name, V)) -> Seq<(Name, V)>
    decreases s.len(),
{
    if s.len() == 0 {
        seq![x]
    } else if lex_le(s.last().0@, x.0@) {
        s.push(x)
    } else {
        insert_entry_sh(s.drop_last(), x).push(s.last())
    }
}

/// Executable entries sorted by name, lexicographically, by insertion.
pub open spec fn sort_entries_sh<V>(s: Seq<(Name, V)>) -> Seq<(Name, V)>
    decreases s.len(),
{
    if s.len() == 0 {
        Seq::empty()
    } else {
        insert_entry_sh(sort_entries_sh(s.drop_last()), s.last())
    }
}

fn insert_sorted_entry<V>(v: Vec<(Name, V)>, x: (Name, V)) -> (r: Vec<(Name, V)>)
    ensures
        r@ == insert_entry_sh(v@, x),
    decreases v@.len(),
{
    let ghost orig = v@;
    if v.len() == 0 {
        let mut v = v;
        v.push(x);
        proof {
            assert(v@ =~= seq![x]);
        }
        v
    } else {
        let le = crate::name::name_le(&v[v.len() - 1].0, &x.0);
        if le {
            let mut v = v;
            v.push(x);
            v
        } else {
            let mut v = v;
            let last = v.pop().unwrap();
            proof {
                assert(v@ =~= orig.drop_last());
                assert(last == orig.last());
            }
            let mut r = insert_sorted_entry(v, x);
            r.push(last);
            r
        }
    }
}

/// Sorts entries by their names, lexicographically on the bytes; the order
/// of the values follows their keys.
pub fn sort_by_name<V>(v: Vec<(Name, V)>) -> (r: Vec<(Name, V)>)
    ensures
        r@ == sort_entries_sh(v@),
    decreases v@.len(),
{
    let ghost orig = v@;
    if v.len() == 0 {
        v
    } else {
        let mut v = v;
        let last = v.pop().unwrap();
        proof {
            assert(v@ =~= orig.drop_last());
            assert(last == orig.last());
        }
        let sorted = sort_by_name(v);
        insert_sorted_entry(sorted, last)
    }
}

proof fn lemma_insert_bridge_r(s: Seq<(Name, Vec<u8>)>, x: (Name, Vec<u8>))
    ensures
        rentries_model(insert_entry_sh(s, x)) == insert_entry(rentries_model(s), (x.0@, x.1@)),
    decreases s.len(),
{
    let m = rentries_model(s);
    assert(m.len() == s.len());
    if s.len() == 0 {
        assert(rentries_model(insert_entry_sh(s, x)) =~= insert_entry(m, (x.0@, x.1@)));
    } else {
        assert(m.last() == (s.last().0@, s.last().1@));
        if lex_le(s.last().0@, x.0@) {
            assert(rentries_model(s.push(x)) =~= m.push((x.0@, x.1@)));
        } else {
            lemma_insert_bridge_r(s.drop_last(), x);
            assert(rentries_model(s.drop_last()) =~= m.drop_last());
            assert(rentries_model(insert_entry_sh(s.drop_last(), x).push(s.last())) =~= rentries_model(
                insert_entry_sh(s.drop_last(), x),
            ).push(m.last()));
        }
    }
}

/// Sorting executable record entries matches sorting their models.
pub proof fn lemma_sort_bridge_r(s: Seq<(Name, Vec<u8>)>)
    ensures
        rentries_model(sort_entries_sh(s)) == sort_entries(rentries_model(s)),
    decreases s.len(),
{
    let m = rentries_model(s);
    assert(m.len() == s.len());
    if s.len() == 0 {
        assert(rentries_model(sort_entries_sh(s)) =~= sort_entries(m));
    } else {
        lemma_sort_bridge_r(s.drop_last());
        lemma_insert_bridge_r(sort_entries_sh(s.drop_last()), s.last());
        assert(rentries_model(s.drop_last()) =~= m.drop_last());
        assert(m.last() == (s.last().0@, s.last().1@));
    }
}

proof fn lemma_insert_bridge_t(s: Seq<(Name, Vec<Vec<u8>>)>, x: (Name, Vec<Vec<u8>>))
    ensures
        tentries_model(insert_entry_sh(s, x)) == insert_entry(
            tentries_model(s),
            (x.0@, texts_model(x.1@)),
        ),
    decreases s.len(),
{
    let m = tentries_model(s);
    assert(m.len() == s.len());
    if s.len() == 0 {
        assert(tentries_model(insert_entry_sh(s, x)) =~= insert_entry(m, (x.0@, texts_model(x.1@))));
    } else {
        assert(m.last() == (s.last().0@, texts_model(s.last().1@)));
        if lex_le(s.last().0@, x.0@) {
            assert(tentries_model(s.push(x)) =~= m.push((x.0@, texts_model(x.1@))));
        } else {
            lemma_insert_bridge_t(s.drop_last(), x);
            assert(tentries_model(s.drop_last()) =~= m.drop_last());
            assert(tentries_model(insert_entry_sh(s.drop_last(), x).push(s.last())) =~= tentries_model(
                insert_entry_sh(s.drop_last(), x),
            ).push(m.last()));
        }
    }
}

/// Sorting executable tag entries matches sorting their models.
pub proof fn lemma_sort_bridge_t(s: Seq<(Name, Vec<Vec<u8>>)>)
    ensures
        tentries_model(sort_entries_sh(s)) == sort_entries(tentries_model(s)),
    decreases s.len(),
{
    let m = tentries_model(s);
    assert(m.len() == s.len());
    if s.len() == 0 {
        assert(tentries_model(sort_entries_sh(s)) =~= sort_entries(m));
    } else {
        lemma_sort_bridge_t(s.drop_last());
        lemma_insert_bridge_t(sort_entries_sh(s.drop_last()), s.last());
        assert(tentries_model(s.drop_last()) =~= m.drop_last());
        assert(m.last() == (s.last().0@, texts_model(s.last().1@)));
    }
}

// ---- the renderer ----

/// The document of a type, in a given position.
pub open spec fn render_model(t: TypeModel, pos: Parens) -> Seq<u8>
    decreases t,
{
    match t {
        TypeModel::Infinite => txt_infinity(),
        TypeModel::Error => txt_question(),
        TypeModel::FlexVar(n) => n,
        TypeModel::RigidVar(n) => n,
        TypeModel::Function(args, ret) => doc_function(
            pos,
            render_list(args, Parens::InFn),
            render_model(*ret, Parens::InFn),
        ),
        TypeModel::Apply(n, args) => doc_apply(pos, n, render_list(args, Parens::InTypeParam)),
        TypeModel::Alias(n, args, _) => doc_apply(pos, n, render_entry_values(args)),
        TypeModel::Record(fields, ext) => doc_record(
            sort_entries(render_fields(fields)),
            ext_doc(ext),
        ),
        TypeModel::TagUnion(tags, ext) => doc_tag_union(
            sort_entries(render_tags(tags, Parens::InTypeParam)),
            ext_doc(ext),
        ),
        TypeModel::RecursiveTagUnion(rec, tags, ext) => doc_recursive_tag_union(
            render_model(*rec, Parens::Unnecessary),
            sort_entries(render_tags(tags, Parens::InTypeParam)),
            ext_doc(ext),
        ),
        TypeModel::Boolean(b) => if b {
            txt_true()
        } else {
            txt_false()
        },
    }
}

/// The documents of a sequence of types.
pub open spec fn render_list(s: Seq<TypeModel>, pos: Parens) -> Seq<Seq<u8>>
    decreases s,
{
    if s.len() == 0 {
        Seq::empty()
    } else {
        render_list(s.drop_last(), pos).push(render_model(s.last(), pos))
    }
}

/// The documents of alias argument values, in type-parameter position.
pub open spec fn render_entry_values(s: Seq<(Seq<u8>, TypeModel)>) -> Seq<Seq<u8>>
    decreases s,
{
    if s.len() == 0 {
        Seq::empty()
    } else {
        render_entry_values(s.drop_last()).push(render_model(s.last().1, Parens::InTypeParam))
    }
}

/// The rendered entries of a record row, in declaration order.
pub open spec fn render_fields(s: Seq<(Seq<u8>, TypeModel)>) -> Seq<(Seq<u8>, Seq<u8>)>
    decreases s,
{
    if s.len() == 0 {
        Seq::empty()
    } else {
        render_fields(s.drop_last()).push(
            (s.last().0, render_model(s.last().1, Parens::Unnecessary)),
        )
    }
}

/// The rendered entries of a tag row, in declaration order, with the
/// payloads rendered in the given position.
pub open spec fn render_tags(s: Seq<(Seq<u8>, Seq<TypeModel>)>, pos: Parens) -> Seq<
    (Seq<u8>, Seq<Seq<u8>>),
>
    decreases s,
{
    if s.len() == 0 {
        Seq::empty()
    } else {
        render_tags(s.drop_last(), pos).push((s.last().0, render_list(s.last().1, pos)))
    }
}

pub(crate) fn render_args(pos: Parens, args: &Vec<ErrorType>) -> (r: Vec<Vec<u8>>)
    ensures
        texts_model(r@) == render_list(list_model(args@), pos),
    decreases args,
{
    let mut out: Vec<Vec<u8>> = Vec::new();
    let mut i: usize = 0;
    while i < args.len()
        invariant
            i <= args@.len(),
            texts_model(out@) == render_list(list_model(args@.subrange(0, i as int)), pos),
        decreases args@.len() - i,
    {
        let doc = to_doc(pos, &args[i]);
        out.push(doc);
        proof {
            lemma_list_model(args@.subrange(0, i as int));
            lemma_list_model(args@.subrange(0, i + 1 as int));
            let pre = list_model(args@.subrange(0, i as int));
            let cur = list_model(args@.subrange(0, i + 1 as int));
            assert(cur.drop_last() =~= pre);
            assert(cur.last() == type_model(args@[i as int]));
            assert(texts_model(out@) =~= render_list(cur, pos));
        }
        i = i + 1;
    }
    proof {
        assert(args@.subrange(0, args@.len() as int) =~= args@);
    }
    out
}

fn render_alias_args(args: &Vec<(Name, ErrorType)>) -> (r: Vec<Vec<u8>>)
    ensures
        texts_model(r@) == render_entry_values(fields_model(args@)),
    decreases args,
{
    let mut out: Vec<Vec<u8>> = Vec::new();
    let mut i: usize = 0;
    while i < args.len()
        invariant
            i <= args@.len(),
            texts_model(out@) == render_entry_values(fields_model(args@.subrange(0, i as int))),
        decreases args@.len() - i,
    {
        let doc = to_doc(Parens::InTypeParam, &args[i].1);
        out.push(doc);
        proof {
            lemma_fields_model(args@.subrange(0, i as int));
            lemma_fields_model(args@.subrange(0, i + 1 as int));
            let pre = fields_model(args@.subrange(0, i as int));
            let cur = fields_model(args@.subrange(0, i + 1 as int));
            assert(cur.drop_last() =~= pre);
            assert(cur.last() == (args@[i as int].0@, type_model(args@[i as int].1)));
            assert(texts_model(out@) =~= render_entry_values(cur));
        }
        i = i + 1;
    }
    proof {
        assert(args@.subrange(0, args@.len() as int) =~= args@);
    }
    out
}

fn render_fields_exec(fields: &Vec<(Name, ErrorType)>) -> (r: Vec<(Name, Vec<u8>)>)
    ensures
        rentries_model(r@) == render_fields(fields_model(fields@)),
    decreases fields,
{
    let mut out: Vec<(Name, Vec<u8>)> = Vec::new();
    let mut i: usize = 0;
    while i < fields.len()
        invariant
            i <= fields@.len(),
            rentries_model(out@) == render_fields(fields_model(fields@.subrange(0, i as int))),
        decreases fields@.len() - i,
    {
        let doc = to_doc(Parens::Unnecessary, &fields[i].1);
        out.push((clone_name(&fields[i].0), doc));
        proof {
            lemma_fields_model(fields@.subrange(0, i as int));
            lemma_fields_model(fields@.subrange(0, i + 1 as int));
            let pre = fields_model(fields@.subrange(0, i as int));
            let cur = fields_model(fields@.subrange(0, i + 1 as int));
            assert(cur.drop_last() =~= pre);
            assert(cur.last() == (fields@[i as int].0@, type_model(fields@[i as int].1)));
            assert(rentries_model(out@) =~= render_fields(cur));
        }
        i = i + 1;
    }
    proof {
        assert(fields@.subrange(0, fields@.len() as int) =~= fields@);
    }
    out
}

pub(crate) fn render_tags_exec(pos: Parens, tags: &Vec<(Name, Vec<ErrorType>)>) -> (r: Vec<
    (Name, Vec<Vec<u8>>),
>)
    ensures
        tentries_model(r@) == render_tags(tags_model(tags@), pos),
    decreases tags,
{
    let mut out: Vec<(Name, Vec<Vec<u8>>)> = Vec::new();
    let mut i: usize = 0;
    while i < tags.len()
        invariant
            i <= tags@.len(),
            tentries_model(out@) == render_tags(tags_model(tags@.subrange(0, i as int)), pos),
        decreases tags@.len() - i,
    {
        let docs = render_args(pos, &tags[i].1);
        out.push((clone_name(&tags[i].0), docs));
        proof {
            lemma_tags_model(tags@.subrange(0, i as int));
            lemma_tags_model(tags@.subrange(0, i + 1 as int));
            let pre = tags_model(tags@.subrange(0, i as int));
            let cur = tags_model(tags@.subrange(0, i + 1 as int));
            assert(cur.drop_last() =~= pre);
            assert(cur.last() == (tags@[i as int].0@, list_model(tags@[i as int].1@)));
            assert(tentries_model(out@) =~= render_tags(cur, pos));
        }
        i = i + 1;
    }
    proof {
        assert(tags@.subrange(0, tags@.len() as int) =~= tags@);
    }
    out
}

fn infinity_text() -> (r: Vec<u8>)
    ensures
        r@ == txt_infinity(),
{
    let mut r: Vec<u8> = Vec::new();
    r.push(0xe2u8);
    r.push(0x88u8);
    r.push(0x9eu8);
    proof {
        assert(r@ =~= txt_infinity());
    }
    r
}

fn bool_text(b: bool) -> (r: Vec<u8>)
    ensures
        r@ == (if b {
            txt_true()
        } else {
            txt_false()
        }),
{
    let mut r: Vec<u8> = Vec::new();
    if b {
        r.push(116u8);
        r.push(114u8);
        r.push(117u8);
        r.push(101u8);
        proof {
            assert(r@ =~= txt_true());
        }
    } else {
        r.push(102u8);
        r.push(97u8);
        r.push(108u8);
        r.push(115u8);
        r.push(101u8);
        proof {
            assert(r@ =~= txt_false());
        }
    }
    r
}

/// Renders one type into a printable byte document.
pub fn to_doc(parens: Parens, tipe: &ErrorType) -> (r: Vec<u8>)
    ensures
        r@ == render_model(type_model(*tipe), parens),
    decreases tipe,
{
    match tipe {
        ErrorType::Infinite => infinity_text(),
        ErrorType::Error => {
            let mut r: Vec<u8> = Vec::new();
            r.push(63u8);
            proof {
                assert(r@ =~= txt_question());
            }
            r
        },
        ErrorType::FlexVar(n) => clone_name(n),
        ErrorType::RigidVar(n) => clone_name(n),
        ErrorType::Function(args, ret) => {
            let arg_docs = render_args(Parens::InFn, args);
            let ret_doc = to_doc(Parens::InFn, &**ret);
            function(parens, arg_docs, ret_doc)
        },
        ErrorType::Apply(n, args) => {
            let arg_docs = render_args(Parens::InTypeParam, args);
            apply(parens, clone_name(n), arg_docs)
        },
        ErrorType::Alias(n, args, _) => {
            let arg_docs = render_alias_args(args);
            apply(parens, clone_name(n), arg_docs)
        },
        ErrorType::Record(fields, ext) => {
            let rendered = render_fields_exec(fields);
            let ghost shallow = rendered@;
            let sorted = sort_by_name(rendered);
            proof {
                lemma_sort_bridge_r(shallow);
            }
            record(sorted, ext_to_doc(ext))
        },
        ErrorType::TagUnion(tags, ext) => {
            let rendered = render_tags_exec(Parens::InTypeParam, tags);
            let ghost shallow = rendered@;
            let sorted = sort_by_name(rendered);
            proof {
                lemma_sort_bridge_t(shallow);
            }
            tag_union(sorted, ext_to_doc(ext))
        },
        ErrorType::RecursiveTagUnion(rec, tags, ext) => {
            let rec_doc = to_doc(Parens::Unnecessary, &**rec);
            let rendered = render_tags_exec(Parens::InTypeParam, tags);
            let ghost shallow = rendered@;
            let sorted = sort_by_name(rendered);
            proof {
                lemma_sort_bridge_t(shallow);
            }
            recursive_tag_union(rec_doc, sorted, ext_to_doc(ext))
        },
        ErrorType::Boolean(b) => bool_text(*b),
    }
}

/// The rendered record entries, entry by entry.
pub proof fn lemma_render_fields(s: Seq<(Seq<u8>, TypeModel)>)
    ensures
        render_fields(s).len() == s.len(),
        forall|i: int| 0 <= i < s.len() ==> render_fields(s)[i] == (
        s[i].0,
        render_model(s[i].1, Parens::Unnecessary),
        ),
    decreases s.len(),
{
    if s.len() > 0 {
        lemma_render_fields(s.drop_last());
    }
}

/// The rendered tag entries, entry by entry.
pub proof fn lemma_render_tags(s: Seq<(Seq<u8>, Seq<TypeModel>)>, pos: Parens)
    ensures
        render_tags(s, pos).len() == s.len(),
        forall|i: int| 0 <= i < s.len() ==> render_tags(s, pos)[i] == (
        s[i].0,
        render_list(s[i].1, pos),
        ),
    decreases s.len(),
{
    if s.len() > 0 {
        lemma_render_tags(s.drop_last(), pos);
    }
}

/// The record-entry model, entry by entry.
pub proof fn lemma_rentries_model(s: Seq<(Name, Vec<u8>)>)
    ensures
        rentries_model(s).len() == s.len(),
        forall|i: int| 0 <= i < s.len() ==> rentries_model(s)[i] == (s[i].0@, s[i].1@),
{
}

/// The tag-entry model, entry by entry.
pub proof fn lemma_tentries_model(s: Seq<(Name, Vec<Vec<u8>>)>)
    ensures
        tentries_model(s).len() == s.len(),
        forall|i: int| 0 <= i < s.len() ==> tentries_model(s)[i] == (
        s[i].0@,
        texts_model(s[i].1@),
        ),
{
}

/// Entries in nondecreasing key order.
pub open spec fn entries_sorted<V>(s: Seq<(Seq<u8>, V)>) -> bool {
    forall|i: int, j: int| 0 <= i < j < s.len() ==> lex_le(s[i].0, s[j].0)
}

proof fn lemma_insert_entry_bound<V>(s: Seq<(Seq<u8>, V)>, x: (Seq<u8>, V), k: Seq<u8>)
    requires
        forall|i: int| 0 <= i < s.len() ==> lex_le(s[i].0, k),
        lex_le(x.0, k),
    ensures
        forall|i: int|
            0 <= i < insert_entry(s, x).len() ==> lex_le(insert_entry(s, x)[i].0, k),
    decreases s.len(),
{
    if s.len() == 0 {
        assert(insert_entry(s, x) =~= seq![x]);
    } else if lex_le(s.last().0, x.0) {
        let r0 = s.push(x);
        assert forall|i: int| 0 <= i < r0.len() implies lex_le(r0[i].0, k) by {
            if i < s.len() {
                assert(r0[i] == s[i]);
            } else {
                assert(r0[i] == x);
            }
        }
    } else {
        assert(forall|i: int|
            0 <= i < s.drop_last().len() ==> lex_le(#[trigger] s.drop_last()[i].0, k));
        lemma_insert_entry_bound(s.drop_last(), x, k);
        let r0 = insert_entry(s.drop_last(), x).push(s.last());
        assert forall|i: int| 0 <= i < r0.len() implies lex_le(r0[i].0, k) by {
            if i < r0.len() - 1 {
                assert(r0[i] == insert_entry(s.drop_last(), x)[i]);
            } else {
                assert(r0[i] == s.last());
            }
        }
    }
}

proof fn lemma_insert_entry_sorted<V>(s: Seq<(Seq<u8>, V)>, x: (Seq<u8>, V))
    requires
        entries_sorted(s),
    ensures
        entries_sorted(insert_entry(s, x)),
        insert_entry(s, x).to_multiset() == s.to_multiset().insert(x),
    decreases s.len(),
{
    s.to_multiset_ensures();
    if s.len() == 0 {
        assert(s =~= Seq::<(Seq<u8>, V)>::empty());
        Seq::<(Seq<u8>, V)>::empty().to_multiset_ensures();
        assert(insert_entry(s, x) =~= Seq::<(Seq<u8>, V)>::empty().push(x));
        assert(Seq::<(Seq<u8>, V)>::empty().push(x).to_multiset() =~= Seq::<(Seq<u8>, V)>::empty()
            .to_multiset().insert(x));
    } else if lex_le(s.last().0, x.0) {
        assert forall|i: int, j: int|
            0 <= i < j < s.push(x).len() implies lex_le(s.push(x)[i].0, s.push(x)[j].0) by {
            if j == s.len() {
                if i < s.len() - 1 {
                    crate::name::lemma_lex_le_trans(s[i].0, s.last().0, x.0);
                }
            }
        }
    } else {
        crate::name::lemma_lex_le_total(s.last().0, x.0);
        let rest = s.drop_last();
        assert(forall|i: int, j: int|
            0 <= i < j < rest.len() ==> lex_le(rest[i].0, rest[j].0));
        lemma_insert_entry_sorted(rest, x);
        let r0 = insert_entry(rest, x);
        assert(forall|i: int| 0 <= i < rest.len() ==> lex_le(rest[i].0, s.last().0));
        lemma_insert_entry_bound(rest, x, s.last().0);
        assert forall|i: int, j: int|
            0 <= i < j < r0.push(s.last()).len() implies lex_le(
            r0.push(s.last())[i].0,
            r0.push(s.last())[j].0,
        ) by {
            if j == r0.len() {
                assert(lex_le(r0[i].0, s.last().0));
            }
        }
        rest.to_multiset_ensures();
        r0.to_multiset_ensures();
        assert(s =~= rest.push(s.last()));
        assert(rest.push(s.last()).to_multiset() =~= rest.to_multiset().insert(s.last()));
        assert(r0.push(s.last()).to_multiset() =~= r0.to_multiset().insert(s.last()));
        assert(r0.push(s.last()).to_multiset() =~= s.to_multiset().insert(x)) by {
            assert(r0.to_multiset() =~= rest.to_multiset().insert(x));
            assert(s.to_multiset() =~= rest.to_multiset().insert(s.last()));
        }
    }
}

/// Law: sorting arranges the entries in nondecreasing key order.
pub proof fn lemma_sort_entries_sorted<V>(s: Seq<(Seq<u8>, V)>)
    ensures
        entries_sorted(sort_entries(s)),
    decreases s.len(),
{
    if s.len() > 0 {
        lemma_sort_entries_sorted(s.drop_last());
        lemma_insert_entry_sorted(sort_entries(s.drop_last()), s.last());
    }
}

/// Law: sorting keeps exactly the entries it was given.
pub proof fn lemma_sort_entries_multiset<V>(s: Seq<(Seq<u8>, V)>)
    ensures
        sort_entries(s).to_multiset() == s.to_multiset(),
    decreases s.len(),
{
    if s.len() == 0 {
        assert(s =~= Seq::<(Seq<u8>, V)>::empty());
    } else {
        let rest = s.drop_last();
        lemma_sort_entries_multiset(rest);
        lemma_sort_entries_sorted(rest);
        lemma_insert_entry_sorted(sort_entries(rest), s.last());
        rest.to_multiset_ensures();
        assert(s =~= rest.push(s.last()));
        assert(rest.push(s.last()).to_multiset() =~= rest.to_multiset().insert(s.last()));
        assert(sort_entries(s).to_multiset() =~= s.to_multiset());
    }
}

proof fn lemma_perm_distinct_keys<V>(a: Seq<(Seq<u8>, V)>, b: Seq<(Seq<u8>, V)>)
    requires
        crate::types::distinct_keys(a),
        a.to_multiset() == b.to_multiset(),
    ensures
        crate::types::distinct_keys(b),
{
    a.to_multiset_ensures();
    b.to_multiset_ensures();
    assert(a.no_duplicates()) by {
        assert(forall|i: int, j: int|
            0 <= i < j < a.len() ==> #[trigger] a[i].0 != #[trigger] a[j].0);
    }
    a.lemma_multiset_has_no_duplicates();
    b.lemma_multiset_has_no_duplicates_conv();
    assert forall|i: int, j: int|
        0 <= i < j < b.len() implies #[trigger] b[i].0 != #[trigger] b[j].0 by {
        if b[i].0 == b[j].0 {
            assert(b[i] != b[j]);
            assert(b.contains(b[i]));
            assert(b.contains(b[j]));
            assert(a.to_multiset().count(b[i]) > 0);
            assert(a.to_multiset().count(b[j]) > 0);
            assert(a.contains(b[i]));
            assert(a.contains(b[j]));
            let p = choose|p: int| 0 <= p < a.len() && a[p] == b[i];
            let q = choose|q: int| 0 <= q < a.len() && a[q] == b[j];
            assert(p != q);
            assert(a[p].0 == a[q].0);
        }
    }
}

proof fn lemma_sorted_unique<V>(a: Seq<(Seq<u8>, V)>, b: Seq<(Seq<u8>, V)>)
    requires
        entries_sorted(a),
        entries_sorted(b),
        crate::types::distinct_keys(a),
        a.to_multiset() == b.to_multiset(),
    ensures
        a == b,
    decreases a.len(),
{
    a.to_multiset_ensures();
    b.to_multiset_ensures();
    if a.len() == 0 {
        assert(a =~= b);
    } else {
        assert(b.len() == a.len());
        assert(b.to_multiset().count(a.last()) > 0) by {
            assert(a.contains(a.last()));
        }
        assert(b.contains(a.last()));
        let j = choose|j: int| 0 <= j < b.len() && b[j] == a.last();
        assert(a.to_multiset().count(b.last()) > 0) by {
            assert(b.contains(b.last()));
        }
        assert(a.contains(b.last()));
        let i = choose|i: int| 0 <= i < a.len() && a[i] == b.last();
        if i < a.len() - 1 {
            assert(lex_le(a[i].0, a.last().0));
            assert(lex_le(b[j].0, b.last().0)) by {
                if j < b.len() - 1 {
                } else {
                    crate::name::lemma_lex_le_total(b[j].0, b.last().0);
                }
            }
            crate::name::lemma_lex_le_antisymmetric(a[i].0, a.last().0);
            assert(a[i].0 == a.last().0);
            assert(false);
        }
        assert(a.last() == b.last());
        let a1 = a.drop_last();
        let b1 = b.drop_last();
        a1.to_multiset_ensures();
        b1.to_multiset_ensures();
        assert(a =~= a1.push(a.last()));
        assert(b =~= b1.push(b.last()));
        assert(a1.push(a.last()).to_multiset() =~= a1.to_multiset().insert(a.last()));
        assert(b1.push(b.last()).to_multiset() =~= b1.to_multiset().insert(b.last()));
        assert(a1.to_multiset() =~= b1.to_multiset()) by {
            broadcast use vstd::multiset::group_multiset_properties;

            assert(a1.to_multiset().insert(a.last()) == b1.to_multiset().insert(b.last()));
            assert forall|e: (Seq<u8>, V)|
                #[trigger] a1.to_multiset().count(e) == b1.to_multiset().count(e) by {
                if e == a.last() {
                    assert(a1.to_multiset().insert(a.last()).count(e) == a1.to_multiset().count(e)
                        + 1);
                    assert(b1.to_multiset().insert(b.last()).count(e) == b1.to_multiset().count(e)
                        + 1);
                } else {
                    assert(a1.to_multiset().insert(a.last()).count(e) == a1.to_multiset().count(
                        e,
                    ));
                    assert(b1.to_multiset().insert(b.last()).count(e) == b1.to_multiset().count(
                        e,
                    ));
                }
            }
        }
        assert(entries_sorted(a1)) by {
            assert(forall|x: int, y: int|
                0 <= x < y < a1.len() ==> lex_le(#[trigger] a1[x].0, #[trigger] a1[y].0));
        }
        assert(entries_sorted(b1)) by {
            assert(forall|x: int, y: int|
                0 <= x < y < b1.len() ==> lex_le(#[trigger] b1[x].0, #[trigger] b1[y].0));
        }
        assert(crate::types::distinct_keys(a1)) by {
            assert(forall|x: int, y: int|
                0 <= x < y < a1.len() ==> #[trigger] a1[x].0 != #[trigger] a1[y].0);
        }
        lemma_sorted_unique(a1, b1);
        assert(a =~= b);
    }
}

/// Law: with distinct keys, sorting is insensitive to declaration order —
/// any two arrangements of the same entries sort to the same sequence.
pub proof fn lemma_sort_entries_canonical<V>(a: Seq<(Seq<u8>, V)>, b: Seq<(Seq<u8>, V)>)
    requires
        crate::types::distinct_keys(a),
        a.to_multiset() == b.to_multiset(),
    ensures
        sort_entries(a) == sort_entries(b),
{
    lemma_sort_entries_sorted(a);
    lemma_sort_entries_sorted(b);
    lemma_sort_entries_multiset(a);
    lemma_sort_entries_multiset(b);
    lemma_perm_distinct_keys(a, sort_entries(a));
    lemma_sorted_unique(sort_entries(a), sort_entries(b));
}

} // verus!
