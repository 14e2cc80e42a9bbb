//! The `structures(...)` and `structure = "..."` arguments of
//! `#[impl_version]`: the types whose names an impl's versions rename.

use vstd::prelude::*;
use crate::version::{MetaItem, string_literals, lemma_string_literals_step};
use crate::generation::opt_text;

verus! {

/// Whether `c` may start a plain ASCII identifier: a letter or `_`.
pub open spec fn ascii_ident_start(c: char) -> bool {
    ('a' <= c && c <= 'z') || ('A' <= c && c <= 'Z') || c == '_'
}

/// Whether `c` may continue a plain ASCII identifier: a letter, a digit or `_`.
pub open spec fn ascii_ident_continue(c: char) -> bool {
    ascii_ident_start(c) || ('0' <= c && c <= '9')
}

/// The words that `syn` refuses as an identifier.
pub open spec fn reserved_word(t: Seq<char>) -> bool {
    ||| t == "_"@
    ||| t == "abstract"@
    ||| t == "as"@
    ||| t == "become"@
    ||| t == "box"@
    ||| t == "break"@
    ||| t == "const"@
    ||| t == "continue"@
    ||| t == "crate"@
    ||| t == "do"@
    ||| t == "else"@
    ||| t == "enum"@
    ||| t == "extern"@
    ||| t == "false"@
    ||| t == "final"@
    ||| t == "fn"@
    ||| t == "for"@
    ||| t == "if"@
    ||| t == "impl"@
    ||| t == "in"@
    ||| t == "let"@
    ||| t == "loop"@
    ||| t == "macro"@
    ||| t == "match"@
    ||| t == "mod"@
    ||| t == "move"@
    ||| t == "mut"@
    ||| t == "override"@
    ||| t == "priv"@
    ||| t == "pub"@
    ||| t == "ref"@
    ||| t == "return"@
    ||| t == "Self"@
    ||| t == "self"@
    ||| t == "static"@
    ||| t == "struct"@
    ||| t == "super"@
    ||| t == "trait"@
    ||| t == "true"@
    ||| t == "type"@
    ||| t == "typeof"@
    ||| t == "unsafe"@
    ||| t == "unsized"@
    ||| t == "use"@
    ||| t == "virtual"@
    ||| t == "where"@
    ||| t == "while"@
    ||| t == "yield"@
}

/// Whether `t` is a plain ASCII identifier that `syn` accepts: a letter or
/// `_`, then letters, digits or `_`, and not a reserved word.
pub open spec fn ascii_ident(t: Seq<char>) -> bool {
    &&& t.len() > 0
    &&& ascii_ident_start(t[0])
    &&& forall|i: int| 1 <= i < t.len() ==> #[trigger] ascii_ident_continue(t[i])
    &&& !reserved_word(t)
}

/// Calls `<syn::Ident as darling::FromMeta>::from_string`, which reads
/// `text` as one identifier through `syn::parse_str`, and gives the
/// identifier's text, or `None` where darling reports an error. Claimed: a
/// plain ASCII identifier that is not one of `syn`'s reserved words reads
/// as itself, whichever lexer `proc_macro2` uses. Left unsaid: what other
/// texts give, since the compiler's lexer (inside a macro expansion) and
/// `proc_macro2`'s own lexer (elsewhere) differ on Unicode identifiers.
#[verifier::external_body]
fn ident_from_string(text: &str) -> (r: Option<String>)
    ensures
        ascii_ident(text@) ==> opt_text(r) == Some(text@),
{
    match <syn::Ident as darling::FromMeta>::from_string(text) {
        Ok(ident) => Some(ident.to_string()),
        Err(_) => None,
    }
}

/// The names of the types that an impl's versions rename.
#[derive(Clone, Debug)]
pub struct StructuresToReplace(pub Vec<String>);

/// A string literal of `structures(...)` that is not an identifier: its
/// index among the argument items, and its text.
#[derive(Clone, Debug)]
pub struct NotAnIdent {
    pub index: usize,
    pub text: String,
}

/// The texts of `names`.
pub open spec fn names_text(names: Seq<String>) -> Seq<Seq<char>> {
    names.map_values(|s: String| s@)
}

/// The index, below `n`, of the first string literal among `items` for
/// which `read` holds no identifier.
pub open spec fn first_unread(items: Seq<MetaItem>, read: Seq<Option<String>>, n: nat) -> Option<int>
    decreases n,
{
    if n == 0 {
        None
    } else {
        match first_unread(items, read, (n - 1) as nat) {
            Some(i) => Some(i),
            None => if items[n - 1] is Str && read[n - 1] is None {
                Some(n - 1)
            } else {
                None
            },
        }
    }
}

/// The identifiers that `read` holds for the string literals among the
/// first `n` of `items`, in order.
pub open spec fn read_names(items: Seq<MetaItem>, read: Seq<Option<String>>, n: nat) -> Seq<Seq<char>>
    decreases n,
{
    if n == 0 {
        Seq::empty()
    } else {
        let prev = read_names(items, read, (n - 1) as nat);
        if items[n - 1] is Str {
            match read[n - 1] {
                Some(s) => prev.push(s@),
                None => prev,
            }
        } else {
            prev
        }
    }
}

proof fn lemma_first_unread(items: Seq<MetaItem>, read: Seq<Option<String>>, m: nat, k: nat)
    requires
        m <= k <= items.len(),
        read.len() == items.len(),
    ensures
        first_unread(items, read, m) matches Some(i) ==> first_unread(items, read, k) == Some(i),
        first_unread(items, read, k) matches Some(i) ==> {
            &&& 0 <= i < k
            &&& items[i] is Str
            &&& read[i] is None
        },
    decreases k,
{
    if k > 0 {
        if m < k {
            lemma_first_unread(items, read, m, (k - 1) as nat);
        }
        lemma_first_unread(items, read, (k - 1) as nat, (k - 1) as nat);
    }
}

proof fn lemma_read_names_len(items: Seq<MetaItem>, read: Seq<Option<String>>, n: nat)
    requires
        n <= items.len(),
        read.len() == items.len(),
        first_unread(items, read, n) is None,
    ensures
        read_names(items, read, n).len() == string_literals(items.take(n as int)).len(),
    decreases n,
{
    if n > 0 {
        lemma_read_names_len(items, read, (n - 1) as nat);
        lemma_string_literals_step(items, n - 1);
    } else {
        assert(items.take(0) =~= Seq::<MetaItem>::empty());
    }
}

/// Whether every string literal among `items` is a plain ASCII identifier.
pub open spec fn literals_ascii(items: Seq<MetaItem>) -> bool {
    forall|j: int| 0 <= j < items.len() ==> (#[trigger] items[j] matches MetaItem::Str(t) ==> ascii_ident(t@))
}

/// Whether, for the first `n` items, `read` holds each string literal's own
/// text.
pub open spec fn read_as_written(items: Seq<MetaItem>, read: Seq<Option<String>>, n: int) -> bool {
    forall|j: int| 0 <= j < n ==> (#[trigger] items[j] matches MetaItem::Str(t)
        ==> (read[j] matches Some(s) && s@ == t@))
}

proof fn lemma_read_as_written(items: Seq<MetaItem>, read: Seq<Option<String>>, n: nat)
    requires
        n <= items.len(),
        read.len() == items.len(),
        read_as_written(items, read, n as int),
    ensures
        first_unread(items, read, n) is None,
        read_names(items, read, n) == string_literals(items.take(n as int)),
    decreases n,
{
    if n > 0 {
        lemma_read_as_written(items, read, (n - 1) as nat);
        lemma_string_literals_step(items, n - 1);
        assert(items[n - 1] == items[n - 1]);
    } else {
        assert(items.take(0) =~= Seq::<MetaItem>::empty());
    }
}

impl StructuresToReplace {
    /// The names of `structures(...)`, given `read`, what reading each item
    /// as an identifier gave (`None` for an item that is not a string
    /// literal, or whose text is not an identifier): the error for the
    /// first string literal that read as none, else the identifiers of the
    /// string literals in order.
    pub fn from_outcomes(items: &[MetaItem], read: &[Option<String>]) -> (r: Result<StructuresToReplace, NotAnIdent>)
        requires
            read@.len() == items@.len(),
        ensures
            match first_unread(items@, read@, items@.len()) {
                Some(i) => r matches Err(e) && e.index == i && 0 <= i < items@.len()
                    && (items@[i] matches MetaItem::Str(t) && e.text@ == t@),
                None => r matches Ok(s) && names_text(s.0@) == read_names(items@, read@, items@.len()),
            },
    {
        let mut out: Vec<String> = Vec::new();
        let mut i: usize = 0;
        while i < items.len()
            invariant
                i <= items@.len(),
                read@.len() == items@.len(),
                first_unread(items@, read@, i as nat) is None,
                names_text(out@) == read_names(items@, read@, i as nat),
            decreases items@.len() - i,
        {
            match &items[i] {
                MetaItem::Str(text) => {
                    match &read[i] {
                        Some(name) => {
                            let ghost before = out@;
                            out.push(name.clone());
                            assert(names_text(out@) =~= names_text(before).push(name@));
                        },
                        None => {
                            proof {
                                lemma_first_unread(items@, read@, (i + 1) as nat, items@.len());
                            }
                            return Err(NotAnIdent { index: i, text: text.clone() });
                        },
                    }
                },
                MetaItem::Other => {},
            }
            i = i + 1;
        }
        Ok(StructuresToReplace(out))
    }

    /// Reads the string literals among `items` as identifiers, up to the
    /// first that is not one, and gives what `from_outcomes` makes of that:
    /// the error for that literal, else one name for each string literal.
    pub fn from_list(items: &[MetaItem]) -> (r: Result<StructuresToReplace, NotAnIdent>)
        ensures
            r matches Ok(s) ==> s.0@.len() == string_literals(items@).len(),
            literals_ascii(items@) ==> (r matches Ok(s) && names_text(s.0@) == string_literals(items@)),
            r matches Err(e) ==> 0 <= e.index < items@.len()
                && (items@[e.index as int] matches MetaItem::Str(t) && e.text@ == t@),
    {
        let mut read: Vec<Option<String>> = Vec::new();
        let mut failed = false;
        let mut i: usize = 0;
        while i < items.len()
            invariant
                i <= items@.len(),
                read@.len() == i,
                literals_ascii(items@) ==> !failed && read_as_written(items@, read@, i as int),
            decreases items@.len() - i,
        {
            match &items[i] {
                MetaItem::Str(text) => {
                    if failed {
                        read.push(None);
                    } else {
                        let outcome = ident_from_string(text.as_str());
                        if outcome.is_none() {
                            failed = true;
                        }
                        read.push(outcome);
                    }
                },
                MetaItem::Other => {
                    read.push(None);
                },
            }
            i = i + 1;
        }
        let r = StructuresToReplace::from_outcomes(items, read.as_slice());
        proof {
            let n = items@.len();
            lemma_first_unread(items@, read@, n, n);
            assert(items@.take(n as int) =~= items@);
            if literals_ascii(items@) {
                lemma_read_as_written(items@, read@, n);
            }
            if first_unread(items@, read@, n) is None {
                lemma_read_names_len(items@, read@, n);
            }
        }
        r
    }
}

/// The types that `#[impl_version]` renames: those that `structures(...)`
/// names, then the one that `structure = "..."` names; `None` where neither
/// is given.
pub fn impl_structures(
    structures: Option<StructuresToReplace>,
    structure: Option<StructuresToReplace>,
) -> (r: Option<Vec<String>>)
    ensures
        match (structures, structure) {
            (None, None) => r is None,
            (Some(a), None) => r matches Some(v) && v@ == a.0@,
            (None, Some(b)) => r matches Some(v) && v@ == b.0@,
            (Some(a), Some(b)) => r matches Some(v) && v@ == a.0@ + b.0@,
        },
{
    match (structures, structure) {
        (None, None) => None,
        (Some(a), None) => Some(a.0),
        (None, Some(b)) => Some(b.0),
        (Some(a), Some(b)) => {
            let mut v = a.0;
            let mut w = b.0;
            v.append(&mut w);
            Some(v)
        },
    }
}

} // verus!
