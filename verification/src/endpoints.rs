//! The addresses of the library queries.
use vstd::prelude::*;
use vstd::string::*;

verus! {

/// The query for every series of the library.
pub open spec fn shows_query(base_url: Seq<char>, api_key: Seq<char>) -> Seq<char> {
    base_url + "/Items?IncludeItemTypes=Series&Recursive=true&api_key="@ + api_key
}

/// The query for the episodes of one series, with their paths and media sources.
pub open spec fn episodes_query(base_url: Seq<char>, show_id: Seq<char>, api_key: Seq<char>) -> Seq<char> {
    base_url + "/Shows/"@ + show_id + "/Episodes?Fields=Path,MediaSources&api_key="@ + api_key
}

/// The query for every movie of the library, with their paths and media sources.
pub open spec fn movies_query(base_url: Seq<char>, api_key: Seq<char>) -> Seq<char> {
    base_url + "/Items?IncludeItemTypes=Movie&Recursive=true&Fields=Path,MediaSources&api_key="@ + api_key
}

/// Every query starts with the server address and ends with the API key;
/// the episode query names the series right after "/Shows/".
pub proof fn lemma_queries_frame(base_url: Seq<char>, show_id: Seq<char>, api_key: Seq<char>)
    ensures
        shows_query(base_url, api_key).subrange(0, base_url.len() as int) == base_url,
        shows_query(base_url, api_key).subrange(
            shows_query(base_url, api_key).len() - api_key.len(),
            shows_query(base_url, api_key).len() as int,
        ) == api_key,
        movies_query(base_url, api_key).subrange(0, base_url.len() as int) == base_url,
        movies_query(base_url, api_key).subrange(
            movies_query(base_url, api_key).len() - api_key.len(),
            movies_query(base_url, api_key).len() as int,
        ) == api_key,
        episodes_query(base_url, show_id, api_key).subrange(0, base_url.len() + 7int) == base_url
            + "/Shows/"@,
        episodes_query(base_url, show_id, api_key).subrange(
            base_url.len() + 7int,
            base_url.len() + 7int + show_id.len(),
        ) == show_id,
        episodes_query(base_url, show_id, api_key).subrange(
            episodes_query(base_url, show_id, api_key).len() - api_key.len(),
            episodes_query(base_url, show_id, api_key).len() as int,
        ) == api_key,
{
    reveal_strlit("/Shows/");
    let s = shows_query(base_url, api_key);
    assert(s.subrange(0, base_url.len() as int) =~= base_url);
    assert(s.subrange(s.len() - api_key.len(), s.len() as int) =~= api_key);
    let m = movies_query(base_url, api_key);
    assert(m.subrange(0, base_url.len() as int) =~= base_url);
    assert(m.subrange(m.len() - api_key.len(), m.len() as int) =~= api_key);
    let e = episodes_query(base_url, show_id, api_key);
    assert(e.subrange(0, base_url.len() + 7int) =~= base_url + "/Shows/"@);
    assert(e.subrange(base_url.len() + 7int, base_url.len() + 7int + show_id.len()) =~= show_id);
    assert(e.subrange(e.len() - api_key.len(), e.len() as int) =~= api_key);
}

/// The address that lists every series.
pub fn shows_url(base_url: &str, api_key: &str) -> (r: String)
    ensures
        r@ == shows_query(base_url@, api_key@),
{
    let mut url = String::from_str(base_url);
    url.append("/Items?IncludeItemTypes=Series&Recursive=true&api_key=");
    url.append(api_key);
    url
}

/// The address that lists the episodes of a series.
pub fn episodes_url(base_url: &str, show_id: &str, api_key: &str) -> (r: String)
    ensures
        r@ == episodes_query(base_url@, show_id@, api_key@),
{
    let mut url = String::from_str(base_url);
    url.append("/Shows/");
    url.append(show_id);
    url.append("/Episodes?Fields=Path,MediaSources&api_key=");
    url.append(api_key);
    url
}

/// The address that lists every movie.
pub fn movies_url(base_url: &str, api_key: &str) -> (r: String)
    ensures
        r@ == movies_query(base_url@, api_key@),
{
    let mut url = String::from_str(base_url);
    url.append("/Items?IncludeItemTypes=Movie&Recursive=true&Fields=Path,MediaSources&api_key=");
    url.append(api_key);
    url
}

} // verus!
