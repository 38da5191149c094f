//! Where the footer of a split comes from: the cache, or else the file of the split.

use vstd::prelude::*;

verus! {

/// A split, and where in its file the footer stands.
#[derive(Debug, PartialEq)]
pub struct SplitIdAndFooterOffsets {
    pub split_id: String,
    pub split_footer_start: u64,
    pub split_footer_end: u64,
}

/// What to do to get a footer.
#[derive(Debug, PartialEq)]
pub enum FooterLookup<B> {
    /// Nothing: here it is.
    Cached(B),
    /// Fetch these bytes of this file.
    Fetch { split_file: String, start: usize, end: usize },
}

/// A footer that was fetched, and the key under which to cache it.
#[derive(Debug, PartialEq)]
pub struct FetchedFooter<B> {
    pub cache_key: String,
    pub footer_data: B,
}

/// Why a footer could not be had.
#[derive(Debug, PartialEq)]
pub struct FooterError<E> {
    /// What was tried: which storage, which split.
    pub context: String,
    pub cause: E,
}

/// The name of the file of a split.
pub open spec fn split_file_name(split_id: Seq<char>) -> Seq<char> {
    split_id + ".split"@
}

/// What is said where the footer of a split cannot be fetched.
pub open spec fn fetch_failure(uri: Seq<char>, split_id: Seq<char>) -> Seq<char> {
    "Failed to fetch hotcache and footer from "@ + uri + " for split `"@ + split_id + "`"@
}

/// The name of the file of a split.
pub fn split_file(split_id: &str) -> (file: String)
    ensures
        file@ == split_file_name(split_id@),
        file@ == split_id@ + ".split"@,
{
    split_id.to_owned().concat(".split")
}

/// Decides where the footer of a split comes from: from the cache, where it is there.
pub fn footer_from_cache_or_fetch<B>(
    cached: Option<B>,
    split_and_footer_offsets: &SplitIdAndFooterOffsets,
) -> (lookup: FooterLookup<B>)
    ensures
        match cached {
            Some(footer_data) => lookup == FooterLookup::Cached(footer_data),
            None => lookup matches FooterLookup::Fetch { split_file, start, end } && {
                &&& split_file@ == split_file_name(split_and_footer_offsets.split_id@)
                &&& split_file@ == split_and_footer_offsets.split_id@ + ".split"@
                &&& start == split_and_footer_offsets.split_footer_start as usize
                &&& end == split_and_footer_offsets.split_footer_end as usize
            },
        },
{
    match cached {
        Some(footer_data) => FooterLookup::Cached(footer_data),
        None => FooterLookup::Fetch {
            split_file: split_file(split_and_footer_offsets.split_id.as_str()),
            start: split_and_footer_offsets.split_footer_start as usize,
            end: split_and_footer_offsets.split_footer_end as usize,
        },
    }
}

/// Takes a footer that was fetched from the storage at `uri`: it is cached under the ID of its
/// split. Where it could not be fetched nothing is cached.
pub fn footer_fetched<B, E>(
    fetched: Result<B, E>,
    uri: &str,
    split_and_footer_offsets: &SplitIdAndFooterOffsets,
) -> (footer: Result<FetchedFooter<B>, FooterError<E>>)
    ensures
        match fetched {
            Ok(footer_data) => footer matches Ok(f) && {
                &&& f.footer_data == footer_data
                &&& f.cache_key@ == split_and_footer_offsets.split_id@
            },
            Err(cause) => footer matches Err(e) && {
                &&& e.cause == cause
                &&& e.context@ == fetch_failure(uri@, split_and_footer_offsets.split_id@)
                &&& e.context@ == "Failed to fetch hotcache and footer from "@ + uri@
                    + " for split `"@ + split_and_footer_offsets.split_id@ + "`"@
            },
        },
{
    match fetched {
        Ok(footer_data) => Ok(
            FetchedFooter { cache_key: split_and_footer_offsets.split_id.clone(), footer_data },
        ),
        Err(cause) => {
            let context = "Failed to fetch hotcache and footer from ".to_owned().concat(
                uri,
            ).concat(" for split `").concat(split_and_footer_offsets.split_id.as_str()).concat("`");
            Err(FooterError { context, cause })
        },
    }
}

/// The file of a split is named by all of its ID and the ending of split files.
pub proof fn split_file_is_named_by_its_split(split_id: Seq<char>)
    ensures
        split_file_name(split_id).take(split_id.len() as int) == split_id,
        split_file_name(split_id).skip(split_id.len() as int) == seq!['.', 's', 'p', 'l', 'i', 't'],
{
    reveal_strlit(".split");
    assert(split_file_name(split_id).take(split_id.len() as int) =~= split_id);
    assert(split_file_name(split_id).skip(split_id.len() as int) =~= ".split"@);
    assert(".split"@ =~= seq!['.', 's', 'p', 'l', 'i', 't']);
}

/// Two splits share a file only where they share their ID.
pub proof fn split_files_are_distinct(a: Seq<char>, b: Seq<char>)
    requires
        split_file_name(a) == split_file_name(b),
    ensures
        a == b,
{
    let n = ".split"@.len();
    assert(split_file_name(a).len() == a.len() + n);
    assert(split_file_name(b).len() == b.len() + n);
    assert(split_file_name(a).take(a.len() as int) =~= a);
    assert(split_file_name(b).take(b.len() as int) =~= b);
}

} // verus!
