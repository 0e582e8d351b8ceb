//! Rarity classification of staked items from the two collections'
//! metadata shapes, and the paged walk over a registry's owned-identifier
//! listing.

use vstd::prelude::*;

use vstd::string::StrSliceExecFns;

verus! {

/// Fixed page size of the registry's owned-identifier query.
pub const TOKENS_PAGE_LIMIT: usize = 30;

/// Metadata query understood by the collection-A (monkeez) registry.
#[derive(Clone, Debug, PartialEq)]
pub enum MonkeezQueryMsg {
    NftAdditionalInfo { token_id: String },
}

/// One trait entry of the collection-A metadata schema.
#[derive(Clone, Debug, PartialEq)]
pub struct MonkeezMetaData {
    pub name: String,
    pub value: String,
    pub rarity_name: String,
}

/// One trait entry of the collection-B (kongz) metadata schema.
#[derive(Clone, Debug, PartialEq)]
pub struct KongzMetaData {
    pub display_type: Option<String>,
    pub trait_type: String,
    pub value: String,
}

/// The collection-A registry's metadata response; `metadata` carries the
/// trait list as one raw string.
#[derive(Clone, Debug, PartialEq)]
pub struct MonkeezNftResponse {
    pub owner: String,
    pub token_id: String,
    pub name: String,
    pub description: String,
    pub image: Option<String>,
    pub uri: Option<String>,
    pub metadata: String,
    pub creator: String,
    pub royalty_percent_fee: Option<String>,
}

/// The collection-B registry's metadata extension, with its trait list.
#[derive(Clone, Debug, PartialEq)]
pub struct KongzExtension {
    pub image: String,
    pub image_data: Option<String>,
    pub external_url: Option<String>,
    pub description: String,
    pub name: String,
    pub attributes: Vec<KongzMetaData>,
    pub background_color: Option<String>,
    pub animation_url: Option<String>,
    pub youtube_url: Option<String>,
}

/// Whether `needle` occurs in `hay` starting at position `i`.
pub open spec fn is_substring_at(hay: Seq<char>, needle: Seq<char>, i: int) -> bool {
    0 <= i && i + needle.len() <= hay.len() && hay.subrange(i, i + needle.len()) == needle
}

/// Whether `needle` occurs anywhere in `hay`.
pub open spec fn contains_substring(hay: Seq<char>, needle: Seq<char>) -> bool {
    exists|i: int| is_substring_at(hay, needle, i)
}

/// Substring search over the characters of two string slices.
fn str_contains(hay: &str, needle: &str) -> (r: bool)
    ensures
        r == contains_substring(hay@, needle@),
{
    let hl = hay.unicode_len();
    let nl = needle.unicode_len();
    if nl > hl {
        proof {
            if contains_substring(hay@, needle@) {
                let i = choose|i: int| is_substring_at(hay@, needle@, i);
                assert(i + needle@.len() <= hay@.len());
            }
        }
        return false;
    }
    let mut i: usize = 0;
    while i <= hl - nl
        invariant
            nl <= hl,
            hl == hay@.len(),
            nl == needle@.len(),
            0 <= i <= hl - nl + 1,
            forall|x: int| 0 <= x < i ==> !is_substring_at(hay@, needle@, x),
        decreases hl - nl + 1 - i,
    {
        let mut j: usize = 0;
        while j < nl && hay.get_char(i + j) == needle.get_char(j)
            invariant
                0 <= j <= nl,
                nl <= hl,
                i + nl <= hl,
                hl == hay@.len(),
                nl == needle@.len(),
                forall|y: int| 0 <= y < j ==> hay@[i + y] == needle@[y],
            decreases nl - j,
        {
            j = j + 1;
        }
        if j == nl {
            proof {
                assert(hay@.subrange(i as int, i + nl) =~= needle@);
                assert(is_substring_at(hay@, needle@, i as int));
            }
            return true;
        }
        proof {
            assert(hay@[i + j] != needle@[j as int]);
            if is_substring_at(hay@, needle@, i as int) {
                assert(hay@.subrange(i as int, i + nl)[j as int] == needle@[j as int]);
            }
        }
        i = i + 1;
    }
    proof {
        if contains_substring(hay@, needle@) {
            let x = choose|x: int| is_substring_at(hay@, needle@, x);
            assert(x <= hl - nl);
            assert(!is_substring_at(hay@, needle@, x));
        }
    }
    false
}

/// The marker the collection-A metadata string carries for a
/// non-default-rarity item.
pub open spec fn legendary_marker() -> Seq<char> {
    "\"rarity_name\":\"legendary\""@
}

/// Classify a collection-A item from its raw metadata string: it is of the
/// default rarity tier exactly when the metadata does not carry the
/// legendary marker.
pub fn is_common_monkeez(metadata: &String) -> (r: bool)
    ensures
        r == !contains_substring(metadata@, legendary_marker()),
{
    !str_contains(metadata.as_str(), "\"rarity_name\":\"legendary\"")
}

/// Classify a collection-B item from its metadata extension: it is of the
/// default rarity tier exactly when some trait entry names the rarity
/// "Common".
pub fn is_common_kongz(extension: &KongzExtension) -> (r: bool)
    ensures
        r == (exists|i: int|
            0 <= i < extension.attributes@.len() && (#[trigger] extension.attributes@[
                i
            ]).trait_type@ == "Rarity"@ && extension.attributes@[i].value@ == "Common"@),
{
    let rarity: String = "Rarity".to_owned();
    let common: String = "Common".to_owned();
    let n = extension.attributes.len();
    let mut i: usize = 0;
    while i < n
        invariant
            0 <= i <= n,
            n == extension.attributes@.len(),
            rarity@ == "Rarity"@,
            common@ == "Common"@,
            forall|j: int|
                0 <= j < i ==> !((#[trigger] extension.attributes@[j]).trait_type@ == "Rarity"@
                    && extension.attributes@[j].value@ == "Common"@),
        decreases n - i,
    {
        let a = &extension.attributes[i];
        if a.trait_type == rarity && a.value == common {
            return true;
        }
        i = i + 1;
    }
    false
}

/// One step of the paged walk over a registry's owned-identifier listing:
/// append the fetched page to the accumulator, and return the identifier to
/// resume after when the page was full. A short page — fewer identifiers
/// than the fixed page size — ends the walk; this also terminates an
/// inventory that is an exact multiple of the page size, whose final fetch
/// returns an empty page.
pub fn accumulate_token_page(token_ids: &mut Vec<String>, page: &Vec<String>) -> (r: Option<
    String,
>)
    ensures
        final(token_ids)@ == old(token_ids)@ + page@,
        page@.len() < TOKENS_PAGE_LIMIT ==> r is None,
        page@.len() >= TOKENS_PAGE_LIMIT ==> (r matches Some(s) && s == page@[
            TOKENS_PAGE_LIMIT - 1
        ]),
{
    let n = page.len();
    let mut i: usize = 0;
    while i < n
        invariant
            0 <= i <= n,
            n == page@.len(),
            token_ids@ == old(token_ids)@ + page@.take(i as int),
        decreases n - i,
    {
        token_ids.push(page[i].clone());
        proof {
            assert(old(token_ids)@ + page@.take(i + 1) =~= (old(token_ids)@ + page@.take(
                i as int,
            )).push(page@[i as int]));
        }
        i = i + 1;
    }
    proof {
        assert(page@.take(n as int) =~= page@);
    }
    if n < TOKENS_PAGE_LIMIT {
        None
    } else {
        Some(page[TOKENS_PAGE_LIMIT - 1].clone())
    }
}

} // verus!
