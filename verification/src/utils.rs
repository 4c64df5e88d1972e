//! Wordlists and registrable domains.

use crate::error::ScanError;
use crate::recon::{header_fields, render_row, table_header, ResolutionRecord};
use crate::sink::{lemma_table_bytes_extends, lemma_table_bytes_push, table_bytes, Sink};
use crate::text::{opt_text, split_tokens, texts, to_chars, tokens};
use vstd::prelude::*;

verus! {

/// The host of the URL that `url::Url::parse` makes of `text`, as its
/// `host_str` gives it; `None` where the text is rejected or the URL has no
/// host.
pub uninterp spec fn url_host(text: Seq<char>) -> Option<Seq<char>>;

/// The registrable domain that `psl::domain` finds for `host` in the public
/// suffix list, as text; `None` where it finds none.
pub uninterp spec fn registrable_domain(host: Seq<char>) -> Option<Seq<char>>;

/// Parses `full_url` with `url::Url::parse` and hands out a copy of the
/// URL's `host_str`.
#[verifier::external_body]
pub(crate) fn parse_host(full_url: &str) -> (host: Option<String>)
    ensures
        opt_text(host) == url_host(full_url@),
{
    match url::Url::parse(full_url) {
        Ok(parsed) => parsed.host_str().map(String::from),
        Err(_) => None,
    }
}

/// Asks `psl::domain` for the registrable domain of `host` and hands out its
/// bytes as text.
#[verifier::external_body]
fn registrable(host: &str) -> (domain: Option<String>)
    ensures
        opt_text(domain) == registrable_domain(host@),
{
    match psl::domain(host.as_bytes()) {
        Some(d) => Some(String::from_utf8_lossy(d.as_bytes()).to_string()),
        None => None,
    }
}

/// The registrable domain of the host of a URL.
pub open spec fn domain_of_url(text: Seq<char>) -> Option<Seq<char>> {
    match url_host(text) {
        Some(host) => registrable_domain(host),
        None => None,
    }
}

/// The registrable domain of a host, where there is a host.
pub fn domain_of_host(host: Option<String>) -> (domain: Option<String>)
    ensures
        opt_text(domain) == match host {
            Some(h) => registrable_domain(h@),
            None => None,
        },
{
    match host {
        Some(h) => registrable(h.as_str()),
        None => None,
    }
}

/// Extracts the registrable domain from a full URL: `None` for text that is
/// no URL, a URL without a host, or a host under no known suffix rule that
/// leaves a registrable name.
pub fn extract_domain_from_url(full_url: &str) -> (domain: Option<String>)
    ensures
        opt_text(domain) == domain_of_url(full_url@),
{
    domain_of_host(parse_host(full_url))
}

/// The candidate labels in the text of a wordlist: one per line, trimmed,
/// blank lines left out.
pub open spec fn wordlist_labels(text: Seq<char>) -> Seq<Seq<char>> {
    tokens(text, '\n')
}

/// Reads the labels out of the text of a wordlist file.
pub fn load_wordlist(text: &str) -> (labels: Vec<String>)
    ensures
        texts(labels@) == wordlist_labels(text@),
{
    let chars = to_chars(text);
    split_tokens(&chars, '\n')
}

/// The rows of `results`, in order.
pub open spec fn rows_of(results: Seq<ResolutionRecord>) -> Seq<Seq<Seq<char>>> {
    results.map_values(|r: ResolutionRecord| r.row())
}

/// Renders recon results as a table: the header, then a row for each result,
/// whether or not it has addresses. The encoding fails where a row cannot be
/// encoded.
pub fn write_recon_to_csv(results: &Vec<ResolutionRecord>) -> (r: Result<Vec<u8>, ScanError>)
    ensures
        match table_bytes(seq![table_header()] + rows_of(results@)) {
            Some(image) => r matches Ok(bytes) && bytes@ == image,
            None => r matches Err(e) && e is Io,
        },
{
    let ghost head = seq![table_header()];
    let ghost rows = rows_of(results@);
    proof {
        assert(head == Seq::<Seq<Seq<char>>>::empty().push(table_header()));
        lemma_table_bytes_push(Seq::empty(), table_header());
        lemma_table_bytes_extends(head, rows);
    }
    let (mut sink, mut image) = match Sink::open(header_fields()) {
        Ok(opened) => opened,
        Err(e) => {
            return Err(e);
        },
    };
    let mut i: usize = 0;
    assert(rows.take(0) == Seq::<Seq<Seq<char>>>::empty());
    assert(head + sink.rows() == head);
    while i < results.len()
        invariant
            i <= results@.len(),
            head == seq![table_header()],
            rows == rows_of(results@),
            sink.wf(),
            sink.header() == table_header(),
            sink.rows() == rows.take(i as int),
            table_bytes(head + sink.rows()) == Some(image@),
        decreases results.len() - i,
    {
        let ghost before = sink.rows();
        let ghost row = rows[i as int];
        let fields = render_row(&results[i]);
        proof {
            lemma_table_bytes_push(head + before, row);
            assert((head + before).push(row) == head + before.push(row));
            assert(rows.take(i + 1) == before.push(row));
        }
        match sink.write_row(&fields) {
            Ok(bytes) => {
                let mut bytes = bytes;
                image.append(&mut bytes);
            },
            Err(e) => {
                proof {
                    let tail = rows.skip(i + 1);
                    assert(rows == rows.take(i + 1) + tail);
                    lemma_table_bytes_extends(head + before.push(row), tail);
                    assert(head + before.push(row) + tail == head + rows);
                }
                return Err(e);
            },
        }
        i = i + 1;
    }
    assert(rows.take(results@.len() as int) == rows);
    Ok(image)
}

} // verus!
