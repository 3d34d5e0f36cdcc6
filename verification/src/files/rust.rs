use crate::files::markdown::concat;
use crate::files::parse::{error_paths, texts, Document, ParseError};
use quote::ToTokens;
use syn::Item;
use vstd::prelude::*;

verus! {

/// The kinds of top-level declaration that are told apart.
pub enum ItemKind {
    Fn,
    Struct,
    Enum,
    Mod,
    Const,
    Static,
    Trait,
    Impl,
    Type,
    Other,
}

/// One top-level declaration of a source file: its kind and its tokens
/// written out as text.
pub struct RustItem {
    pub kind: ItemKind,
    pub text: String,
}

impl View for RustItem {
    type V = (ItemKind, Seq<char>);

    open spec fn view(&self) -> (ItemKind, Seq<char>) {
        (self.kind, self.text@)
    }
}

/// The views of a run of declarations.
pub open spec fn item_views(items: Seq<RustItem>) -> Seq<(ItemKind, Seq<char>)> {
    Seq::new(items.len(), |i: int| items[i]@)
}

/// The top-level items that `syn::parse_file` finds in `source`, each with
/// the text of the tokens that `quote::ToTokens::to_token_stream` gives for
/// it, or `None` where `source` does not parse.
pub uninterp spec fn parsed_items(source: Seq<char>) -> Option<Seq<(ItemKind, Seq<char>)>>;

/// Parses `source` with `syn::parse_file` and writes the tokens of each item
/// out as text. Nothing is proved of the outcome; it is only given its name.
#[verifier::external_body]
fn rust_items(source: &str) -> (r: Option<Vec<RustItem>>)
    ensures
        match r {
            Some(items) => parsed_items(source@) == Some(item_views(items@)),
            None => parsed_items(source@) is None,
        },
{
    let file = syn::parse_file(source).ok()?;
    let kind = |item: &Item| match item {
        Item::Fn(_) => ItemKind::Fn,
        Item::Struct(_) => ItemKind::Struct,
        Item::Enum(_) => ItemKind::Enum,
        Item::Mod(_) => ItemKind::Mod,
        Item::Const(_) => ItemKind::Const,
        Item::Static(_) => ItemKind::Static,
        Item::Trait(_) => ItemKind::Trait,
        Item::Impl(_) => ItemKind::Impl,
        Item::Type(_) => ItemKind::Type,
        _ => ItemKind::Other,
    };
    Some(file.items.iter().map(|i| RustItem { kind: kind(i), text: i.to_token_stream().to_string() }).collect())
}

/// The snippet still being gathered after `items`: a declaration of a known
/// kind is added to it, and once it has `min_len` characters it is complete
/// and a new one begins.
pub open spec fn pending(items: Seq<(ItemKind, Seq<char>)>, min_len: nat) -> Seq<char>
    decreases items.len(),
{
    if items.len() == 0 {
        Seq::empty()
    } else if items.last().0 is Other {
        pending(items.drop_last(), min_len)
    } else {
        let grown = pending(items.drop_last(), min_len) + items.last().1;
        if grown.len() >= min_len {
            Seq::empty()
        } else {
            grown
        }
    }
}

/// The snippets that `items` have completed.
pub open spec fn completed(items: Seq<(ItemKind, Seq<char>)>, min_len: nat) -> Seq<Seq<char>>
    decreases items.len(),
{
    if items.len() == 0 {
        Seq::empty()
    } else if items.last().0 is Other {
        completed(items.drop_last(), min_len)
    } else {
        let grown = pending(items.drop_last(), min_len) + items.last().1;
        if grown.len() >= min_len {
            completed(items.drop_last(), min_len).push(grown)
        } else {
            completed(items.drop_last(), min_len)
        }
    }
}

/// The snippets of a run of declarations: the completed ones, then what is
/// left, whatever its size, unless it is empty.
pub open spec fn snippets_of(items: Seq<(ItemKind, Seq<char>)>, min_len: nat) -> Seq<Seq<char>> {
    if pending(items, min_len).len() > 0 {
        completed(items, min_len).push(pending(items, min_len))
    } else {
        completed(items, min_len)
    }
}

/// Gathers the declarations of a source file into snippets of at least
/// `min_len` characters, the last one excepted. Items of other kinds are
/// left out.
pub fn extract_code_snippets(items: &Vec<RustItem>, min_len: usize) -> (snippets: Vec<String>)
    ensures
        texts(snippets@) == snippets_of(item_views(items@), min_len as nat),
{
    let mut snippets: Vec<String> = Vec::new();
    let mut current = String::new();
    let mut current_len: usize = 0;
    let mut i: usize = 0;
    let ghost views = item_views(items@);
    assert(views.take(0).len() == 0);
    assert(texts(snippets@) == completed(views.take(0), min_len as nat));
    while i < items.len()
        invariant
            i <= items.len(),
            views == item_views(items@),
            texts(snippets@) == completed(views.take(i as int), min_len as nat),
            current@ == pending(views.take(i as int), min_len as nat),
            current_len == current@.len(),
            current_len == 0 || current_len < min_len,
        decreases items.len() - i,
    {
        proof {
            assert(views.take(i + 1).drop_last() == views.take(i as int));
            assert(views.take(i + 1).last() == items@[i as int]@);
        }
        let item = &items[i];
        match item.kind {
            ItemKind::Other => {},
            _ => {
                let item_len = item.text.as_str().unicode_len();
                current.append(item.text.as_str());
                if item_len >= min_len - current_len {
                    let ghost before = snippets@;
                    snippets.push(current);
                    assert(texts(snippets@) == texts(before).push(current@));
                    current = String::new();
                    current_len = 0;
                } else {
                    current_len += item_len;
                }
            },
        }
        i += 1;
    }
    assert(views.take(items.len() as int) == views);
    if current_len > 0 {
        let ghost before = snippets@;
        snippets.push(current);
        assert(texts(snippets@) == texts(before).push(current@));
    }
    snippets
}

/// The snippets of one Rust source file, in source order.
pub struct RustCode {
    pub path: String,
    pub snippets: Vec<String>,
}

/// The snippets of a batch of Rust source files.
pub struct RustCodes {
    pub rust_codes: Vec<RustCode>,
}

/// What a batch of source files gave: the files that parse, in input order,
/// and one error for each file that does not.
pub struct RustBatch {
    pub codes: RustCodes,
    pub failed: Vec<ParseError>,
}

impl View for RustCode {
    type V = (Seq<char>, Seq<Seq<char>>);

    open spec fn view(&self) -> (Seq<char>, Seq<Seq<char>>) {
        (self.path@, texts(self.snippets@))
    }
}

/// The views of a run of source files.
pub open spec fn code_views(codes: Seq<RustCode>) -> Seq<(Seq<char>, Seq<Seq<char>>)> {
    Seq::new(codes.len(), |i: int| codes[i]@)
}

/// The snippets of a source file with this text, or `None` where it does
/// not parse. A snippet is complete at 1024 characters.
pub open spec fn code_snippets(source: Seq<char>) -> Option<Seq<Seq<char>>> {
    match parsed_items(source) {
        Some(items) => Some(snippets_of(items, 1024)),
        None => None,
    }
}

/// The files of `docs` that parse, each with its path and snippets, in input
/// order.
pub open spec fn parsed_codes(docs: Seq<Document>) -> Seq<(Seq<char>, Seq<Seq<char>>)>
    decreases docs.len(),
{
    if docs.len() == 0 {
        Seq::empty()
    } else {
        match code_snippets(docs.last().content@) {
            Some(snippets) => parsed_codes(docs.drop_last()).push((docs.last().path@, snippets)),
            None => parsed_codes(docs.drop_last()),
        }
    }
}

/// The paths of the files of `docs` that do not parse, in input order.
pub open spec fn failed_codes(docs: Seq<Document>) -> Seq<Seq<char>>
    decreases docs.len(),
{
    if docs.len() == 0 {
        Seq::empty()
    } else {
        match code_snippets(docs.last().content@) {
            Some(_) => failed_codes(docs.drop_last()),
            None => failed_codes(docs.drop_last()).push(docs.last().path@),
        }
    }
}

/// Builds the result for one source file once the parser has answered:
/// the snippets of its items, or the error that names the file.
pub fn snippets_or_error(path: &str, items: Option<Vec<RustItem>>) -> (r: Result<
    RustCode,
    ParseError,
>)
    ensures
        match r {
            Ok(code) => items is Some && code@ == (
                path@,
                snippets_of(item_views(items->0@), 1024),
            ),
            Err(e) => items is None && e.path@ == path@,
        },
{
    match items {
        Some(items) => Ok(
            RustCode { path: path.to_owned(), snippets: extract_code_snippets(&items, 1024) },
        ),
        None => Err(ParseError { path: path.to_owned() }),
    }
}

impl RustCode {
    /// Splits one source file. A file that does not parse gives no snippets
    /// at all, only the error that names it.
    pub fn parse(path: &str, content: &str) -> (r: Result<RustCode, ParseError>)
        ensures
            match r {
                Ok(code) => code_snippets(content@) == Some(code@.1) && code@.0 == path@,
                Err(e) => code_snippets(content@) is None && e.path@ == path@,
            },
    {
        snippets_or_error(path, rust_items(content))
    }

    /// Splits a batch of source files. A file that does not parse is skipped
    /// and reported; the others are still processed.
    pub fn parse_multiple(docs: &[Document]) -> (batch: RustBatch)
        ensures
            code_views(batch.codes.rust_codes@) == parsed_codes(docs@),
            error_paths(batch.failed@) == failed_codes(docs@),
    {
        let mut codes: Vec<RustCode> = Vec::new();
        let mut failed: Vec<ParseError> = Vec::new();
        let mut i: usize = 0;
        assert(docs@.take(0).len() == 0);
        assert(code_views(codes@) == parsed_codes(docs@.take(0)));
        assert(error_paths(failed@) == failed_codes(docs@.take(0)));
        while i < docs.len()
            invariant
                i <= docs.len(),
                code_views(codes@) == parsed_codes(docs@.take(i as int)),
                error_paths(failed@) == failed_codes(docs@.take(i as int)),
            decreases docs.len() - i,
        {
            proof {
                assert(docs@.take(i + 1).drop_last() == docs@.take(i as int));
                assert(docs@.take(i + 1).last() == docs@[i as int]);
            }
            let ghost codes_before = codes@;
            let ghost failed_before = failed@;
            match RustCode::parse(docs[i].path.as_str(), docs[i].content.as_str()) {
                Ok(code) => {
                    codes.push(code);
                    assert(code_views(codes@) == code_views(codes_before).push(code@));
                },
                Err(e) => {
                    failed.push(e);
                    assert(error_paths(failed@) == error_paths(failed_before).push(e.path@));
                },
            }
            i += 1;
        }
        assert(docs@.take(docs.len() as int) == docs@);
        RustBatch { codes: RustCodes { rust_codes: codes }, failed }
    }
}

/// The text of the declarations of known kinds, one after the other.
pub open spec fn kept_text(items: Seq<(ItemKind, Seq<char>)>) -> Seq<char>
    decreases items.len(),
{
    if items.len() == 0 {
        Seq::empty()
    } else if items.last().0 is Other {
        kept_text(items.drop_last())
    } else {
        kept_text(items.drop_last()) + items.last().1
    }
}

proof fn lemma_completed_long(items: Seq<(ItemKind, Seq<char>)>, min_len: nat)
    ensures
        forall|i: int| 0 <= i < completed(items, min_len).len() ==> #[trigger] completed(
            items,
            min_len,
        )[i].len() >= min_len,
        pending(items, min_len).len() < min_len || pending(items, min_len).len() == 0,
    decreases items.len(),
{
    if items.len() > 0 {
        let rest = items.drop_last();
        lemma_completed_long(rest, min_len);
        let out = completed(items, min_len);
        assert forall|i: int| 0 <= i < out.len() implies #[trigger] out[i].len() >= min_len by {
            if i < completed(rest, min_len).len() {
                assert(out[i] == completed(rest, min_len)[i]);
            }
        }
    }
}

/// The coalescing invariant: every snippet but the last has at least
/// `min_len` characters.
pub proof fn lemma_snippets_long(items: Seq<(ItemKind, Seq<char>)>, min_len: nat)
    ensures
        forall|i: int|
            0 <= i < snippets_of(items, min_len).len() - 1 ==> #[trigger] snippets_of(
                items,
                min_len,
            )[i].len() >= min_len,
{
    lemma_completed_long(items, min_len);
}

proof fn lemma_completed_concat(items: Seq<(ItemKind, Seq<char>)>, min_len: nat)
    ensures
        concat(completed(items, min_len)) + pending(items, min_len) == kept_text(items),
    decreases items.len(),
{
    if items.len() > 0 {
        let rest = items.drop_last();
        lemma_completed_concat(rest, min_len);
        if !(items.last().0 is Other) {
            let out = completed(rest, min_len);
            let grown = pending(rest, min_len) + items.last().1;
            assert(concat(out) + grown == (concat(out) + pending(rest, min_len)) + items.last().1);
            if grown.len() >= min_len {
                assert(out.push(grown).drop_last() == out);
                assert(concat(out) + grown + Seq::<char>::empty() == concat(out) + grown);
            }
        }
    }
}

/// Order preservation: the snippets of a source file, one after the other,
/// are the text of its declarations of known kinds, in source order.
pub proof fn lemma_snippets_preserve_text(items: Seq<(ItemKind, Seq<char>)>, min_len: nat)
    ensures
        concat(snippets_of(items, min_len)) == kept_text(items),
{
    lemma_completed_concat(items, min_len);
    let out = completed(items, min_len);
    let left = pending(items, min_len);
    if left.len() > 0 {
        assert(out.push(left).drop_last() == out);
    } else {
        assert(concat(out) + left == concat(out));
    }
}

} // verus!
