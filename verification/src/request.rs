//! From a configured request to the message that is sent.
//!
//! Everything here is a function of its arguments: what a case will send does not depend on the
//! network, the disk or the clock. Digest and OAuth 2.0 need more exchanges and are not applied
//! here.
use crate::json::{json_pretty, pretty, Json, JsonView};
use crate::model::{
    empty_basic, kv_row, row_active, ApikeyIn, AuthSpec, AuthSpecView, AuthType, BasicAuth,
    BodySpec, BodySpecView, BodyType, FormItem, FormItemView, FormKind, HttpSpec, HttpSpecView, Kv,
    KvView,
};
use crate::report::{pair, KvPair, KvPairView};
use crate::text::{
    alnum, blank, cat, cat3, chars_of, copy_text, duplicate_opt, duplicates, empty, is_alnum,
    is_ascii_text, is_blank, is_slash, is_white, join, joined, last_part, last_segment, law_joined_split,
    law_last_segment, law_split_joined,
    lemma_seek, lemma_seek_is, lemma_trim_twice, lemma_views_push, lower, opt_text, opt_view, pieces, same,
    same_ignoring_case, seek, seek_char, split, sub_text, to_lower, to_upper, trim, trimmed, upper,
    uppercase, views, Duplicate,
};
use vstd::prelude::*;

verus! {

/// A part of a multipart form.
#[derive(Debug, Clone, PartialEq)]
pub struct FormPart {
    pub name: String,
    pub value: String,
    /// Set for a file.
    pub file_path: Option<String>,
    pub file_name: Option<String>,
    pub content_type: Option<String>,
}

/// What a `FormPart` stands for.
#[verifier::ext_equal]
pub struct FormPartView {
    pub name: Seq<char>,
    pub value: Seq<char>,
    pub file_path: Option<Seq<char>>,
    pub file_name: Option<Seq<char>>,
    pub content_type: Option<Seq<char>>,
}

impl View for FormPart {
    type V = FormPartView;

    open spec fn view(&self) -> FormPartView {
        FormPartView {
            name: self.name@,
            value: self.value@,
            file_path: opt_view(self.file_path),
            file_name: opt_view(self.file_name),
            content_type: opt_view(self.content_type),
        }
    }
}

impl Duplicate for FormPart {
    fn duplicate(&self) -> (r: Self) {
        FormPart {
            name: copy_text(self.name.as_str()),
            value: copy_text(self.value.as_str()),
            file_path: duplicate_opt(&self.file_path),
            file_name: duplicate_opt(&self.file_name),
            content_type: duplicate_opt(&self.content_type),
        }
    }
}

/// A request body. Files are named by their paths; the sender reads them.
#[derive(Debug, Clone, PartialEq)]
pub enum RequestBody {
    Text(String),
    File(String),
    Form(Vec<FormPart>),
}

/// What a `RequestBody` stands for.
pub enum RequestBodyView {
    Text(Seq<char>),
    File(Seq<char>),
    Form(Seq<FormPartView>),
}

impl View for RequestBody {
    type V = RequestBodyView;

    open spec fn view(&self) -> RequestBodyView {
        match self {
            RequestBody::Text(t) => RequestBodyView::Text(t@),
            RequestBody::File(p) => RequestBodyView::File(p@),
            RequestBody::Form(f) => RequestBodyView::Form(views(f@)),
        }
    }
}

impl Duplicate for RequestBody {
    fn duplicate(&self) -> (r: Self) {
        match self {
            RequestBody::Text(t) => RequestBody::Text(copy_text(t.as_str())),
            RequestBody::File(p) => RequestBody::File(copy_text(p.as_str())),
            RequestBody::Form(f) => RequestBody::Form(duplicates(f)),
        }
    }
}

/// A message that is sent.
#[derive(Debug, Clone, PartialEq)]
pub struct HttpRequest {
    pub method: String,
    pub url: String,
    pub headers: Vec<KvPair>,
    pub body: Option<RequestBody>,
}

/// What a `HttpRequest` stands for.
#[verifier::ext_equal]
pub struct HttpRequestView {
    pub method: Seq<char>,
    pub url: Seq<char>,
    pub headers: Seq<KvPairView>,
    pub body: Option<RequestBodyView>,
}

impl View for HttpRequest {
    type V = HttpRequestView;

    open spec fn view(&self) -> HttpRequestView {
        HttpRequestView {
            method: self.method@,
            url: self.url@,
            headers: views(self.headers@),
            body: opt_view(self.body),
        }
    }
}

impl Duplicate for HttpRequest {
    fn duplicate(&self) -> (r: Self) {
        HttpRequest {
            method: copy_text(self.method.as_str()),
            url: copy_text(self.url.as_str()),
            headers: duplicates(&self.headers),
            body: duplicate_opt(&self.body),
        }
    }
}

/// The text of a body; a file and a form have none to show.
pub open spec fn shown_body(b: Option<RequestBodyView>) -> Option<Seq<char>> {
    match b {
        Some(RequestBodyView::Text(t)) => Some(t),
        _ => None,
    }
}

impl HttpRequest {
    /// The text of the body; a file and a form have none to show.
    pub fn body_text(&self) -> (r: Option<&str>)
        ensures
            opt_text(r) == shown_body(self@.body),
    {
        match &self.body {
            Some(RequestBody::Text(t)) => Some(t.as_str()),
            _ => None,
        }
    }
}

// ---- content types ---------------------------------------------------------------------

/// The content type that a body type has unless one is given.
pub open spec fn default_type(t: BodyType) -> Option<Seq<char>> {
    match t {
        BodyType::Json => Some("application/json; charset=utf-8"@),
        BodyType::Xml => Some("application/xml; charset=utf-8"@),
        BodyType::Text => Some("text/plain; charset=utf-8"@),
        BodyType::FormUrlencoded => Some("application/x-www-form-urlencoded"@),
        _ => None,
    }
}

/// The content type that a body type has unless one is given. Text names its character set;
/// that of a form holds a boundary, which only the sender knows.
pub fn default_content_type(t: BodyType) -> (r: Option<&'static str>)
    ensures
        opt_text(r) == default_type(t),
{
    match t {
        BodyType::Json => Some("application/json; charset=utf-8"),
        BodyType::Xml => Some("application/xml; charset=utf-8"),
        BodyType::Text => Some("text/plain; charset=utf-8"),
        BodyType::FormUrlencoded => Some("application/x-www-form-urlencoded"),
        _ => None,
    }
}

/// The content type of a file extension.
pub open spec fn type_of_extension(ext: Seq<char>) -> Seq<char> {

    if ext == "json"@ {
        "application/json"@
    } else if ext == "xml"@ {
        "application/xml"@
    } else if ext == "txt"@ {
        "text/plain"@
    } else if ext == "csv"@ {
        "text/csv"@
    } else if ext == "html"@ {
        "text/html"@
    } else if ext == "htm"@ {
        "text/html"@
    } else if ext == "css"@ {
        "text/css"@
    } else if ext == "js"@ {
        "text/javascript"@
    } else if ext == "md"@ {
        "text/markdown"@
    } else if ext == "pdf"@ {
        "application/pdf"@
    } else if ext == "zip"@ {
        "application/zip"@
    } else if ext == "gz"@ {
        "application/gzip"@
    } else if ext == "tar"@ {
        "application/x-tar"@
    } else if ext == "png"@ {
        "image/png"@
    } else if ext == "jpg"@ {
        "image/jpeg"@
    } else if ext == "jpeg"@ {
        "image/jpeg"@
    } else if ext == "gif"@ {
        "image/gif"@
    } else if ext == "webp"@ {
        "image/webp"@
    } else if ext == "svg"@ {
        "image/svg+xml"@
    } else if ext == "bmp"@ {
        "image/bmp"@
    } else if ext == "ico"@ {
        "image/x-icon"@
    } else if ext == "mp3"@ {
        "audio/mpeg"@
    } else if ext == "wav"@ {
        "audio/wav"@
    } else if ext == "mp4"@ {
        "video/mp4"@
    } else if ext == "mov"@ {
        "video/quicktime"@
    } else if ext == "webm"@ {
        "video/webm"@
    } else if ext == "doc"@ {
        "application/msword"@
    } else if ext == "docx"@ {
        "application/vnd.openxmlformats-officedocument.wordprocessingml.document"@
    } else if ext == "xls"@ {
        "application/vnd.ms-excel"@
    } else if ext == "xlsx"@ {
        "application/vnd.openxmlformats-officedocument.spreadsheetml.sheet"@
    } else if ext == "ppt"@ {
        "application/vnd.ms-powerpoint"@
    } else if ext == "pptx"@ {
        "application/vnd.openxmlformats-officedocument.presentationml.presentation"@
    } else {
        "application/octet-stream"@
    }
}

fn extension_type(ext: &str) -> (r: &'static str)
    ensures
        r@ == type_of_extension(ext@),
{
    if same(ext, "json") {
        "application/json"
    } else if same(ext, "xml") {
        "application/xml"
    } else if same(ext, "txt") {
        "text/plain"
    } else if same(ext, "csv") {
        "text/csv"
    } else if same(ext, "html") {
        "text/html"
    } else if same(ext, "htm") {
        "text/html"
    } else if same(ext, "css") {
        "text/css"
    } else if same(ext, "js") {
        "text/javascript"
    } else if same(ext, "md") {
        "text/markdown"
    } else if same(ext, "pdf") {
        "application/pdf"
    } else if same(ext, "zip") {
        "application/zip"
    } else if same(ext, "gz") {
        "application/gzip"
    } else if same(ext, "tar") {
        "application/x-tar"
    } else if same(ext, "png") {
        "image/png"
    } else if same(ext, "jpg") {
        "image/jpeg"
    } else if same(ext, "jpeg") {
        "image/jpeg"
    } else if same(ext, "gif") {
        "image/gif"
    } else if same(ext, "webp") {
        "image/webp"
    } else if same(ext, "svg") {
        "image/svg+xml"
    } else if same(ext, "bmp") {
        "image/bmp"
    } else if same(ext, "ico") {
        "image/x-icon"
    } else if same(ext, "mp3") {
        "audio/mpeg"
    } else if same(ext, "wav") {
        "audio/wav"
    } else if same(ext, "mp4") {
        "video/mp4"
    } else if same(ext, "mov") {
        "video/quicktime"
    } else if same(ext, "webm") {
        "video/webm"
    } else if same(ext, "doc") {
        "application/msword"
    } else if same(ext, "docx") {
        "application/vnd.openxmlformats-officedocument.wordprocessingml.document"
    } else if same(ext, "xls") {
        "application/vnd.ms-excel"
    } else if same(ext, "xlsx") {
        "application/vnd.openxmlformats-officedocument.spreadsheetml.sheet"
    } else if same(ext, "ppt") {
        "application/vnd.ms-powerpoint"
    } else if same(ext, "pptx") {
        "application/vnd.openxmlformats-officedocument.presentationml.presentation"
    } else {
        "application/octet-stream"
    }
}

/// The position after the last dot of a text, or nothing if it has no dot.
pub open spec fn after_dot(s: Seq<char>) -> Option<int>
    decreases s.len(),
{
    if s.len() == 0 {
        None
    } else if s.last() == '.' {
        Some(s.len() as int)
    } else {
        after_dot(s.drop_last())
    }
}

/// Whether every character is an ASCII letter or digit.
pub open spec fn all_alnum(s: Seq<char>) -> bool {
    forall|i: int| 0 <= i < s.len() ==> is_alnum(#[trigger] s[i])
}

/// The extension of a path in lower case; empty if there is none to go by.
pub open spec fn extension(path: Seq<char>) -> Seq<char> {
    let p = trim(path);
    match after_dot(p) {
        None => seq![],
        Some(i) => {
            let e = lower(trim(p.skip(i)));
            if all_alnum(e) {
                e
            } else {
                seq![]
            }
        },
    }
}

proof fn lemma_after_dot(s: Seq<char>, j: int)
    requires
        0 <= j <= s.len(),
        j == 0 || s[j - 1] == '.',
        forall|k: int| j <= k < s.len() ==> (#[trigger] s[k]) != '.',
    ensures
        after_dot(s) == (if j == 0 {
            None
        } else {
            Some(j)
        }),
    decreases s.len(),
{
    if s.len() > j {
        let t = s.drop_last();
        assert(forall|k: int| 0 <= k < t.len() ==> t[k] == s[k]);
        lemma_after_dot(t, j);
    }
}

/// The content type of a file by its extension; `application/octet-stream` if that says nothing.
pub fn guess_content_type(path: &str) -> (r: &'static str)
    ensures
        r@ == type_of_extension(extension(path@)),
{
    let p: String = trimmed(path);
    let x: Vec<char> = chars_of(p.as_str());
    let mut j: usize = x.len();
    while j > 0 && x[j - 1] != '.'
        invariant
            j <= x@.len(),
            forall|k: int| j <= k < x@.len() ==> (#[trigger] x@[k]) != '.',
        decreases j,
    {
        j = j - 1;
    }
    proof {
        lemma_after_dot(x@, j as int);
    }
    if j == 0 {
        let none: String = String::new();
        return extension_type(none.as_str());
    }
    let tail: String = sub_text(x.as_slice(), j, x.len());
    assert(tail@ =~= p@.skip(j as int));
    let trimmed_tail: String = trimmed(tail.as_str());
    let e: String = to_lower(trimmed_tail.as_str());
    let cs: Vec<char> = chars_of(e.as_str());
    let mut i: usize = 0;
    while i < cs.len()
        invariant
            i <= cs@.len(),
            cs@ == e@,
            e@ == lower(trim(p@.skip(j as int))),
            p@ == trim(path@),
            after_dot(p@) == Some(j as int),
            forall|k: int| 0 <= k < i ==> is_alnum(#[trigger] cs@[k]),
        decreases cs@.len() - i,
    {
        if !alnum(cs[i]) {
            assert(!all_alnum(e@));
            let none: String = String::new();
            return extension_type(none.as_str());
        }
        i = i + 1;
    }
    assert(all_alnum(e@));
    extension_type(e.as_str())
}

/// A text without its trailing path separators.
pub open spec fn no_back_slash(s: Seq<char>) -> Seq<char>
    decreases s.len(),
{
    if s.len() > 0 && is_slash(s.last()) {
        no_back_slash(s.drop_last())
    } else {
        s
    }
}

/// The last part of a path, whichever separators it has.
pub open spec fn name_of_path(path: Seq<char>) -> Seq<char> {
    last_segment(no_back_slash(trim(path)))
}

/// The last part of a path, whichever separators it has.
pub fn base_name(path: &str) -> (r: String)
    ensures
        r@ == name_of_path(path@),
{
    let p: String = trimmed(path);
    let x: Vec<char> = chars_of(p.as_str());
    let mut j: usize = x.len();
    assert(x@.take(j as int) =~= p@);
    while j > 0 && (x[j - 1] == '/' || x[j - 1] == '\\')
        invariant
            j <= x@.len(),
            no_back_slash(x@.take(j as int)) == no_back_slash(p@),
        decreases j,
    {
        assert(x@.take(j as int).drop_last() =~= x@.take(j - 1));
        j = j - 1;
    }
    let t: String = sub_text(x.as_slice(), 0, j);
    assert(t@ =~= x@.take(j as int));
    last_part(t.as_str())
}

// ---- query -----------------------------------------------------------------------------
//
// Nothing is percent-encoded here: a placeholder for a variable would not survive it.

/// The row of a piece of a query: the name up to the first equals sign, and the value after it.
pub open spec fn query_row(piece: Seq<char>) -> KvView {
    let j = seek(piece, '=', 0);
    if j < piece.len() {
        kv_row(piece.take(j), piece.skip(j + 1))
    } else {
        kv_row(piece, seq![])
    }
}

/// The rows of the pieces of a query; empty pieces are skipped.
pub open spec fn query_rows(ps: Seq<Seq<char>>) -> Seq<KvView>
    decreases ps.len(),
{
    if ps.len() == 0 {
        seq![]
    } else if ps.last().len() == 0 {
        query_rows(ps.drop_last())
    } else {
        query_rows(ps.drop_last()).push(query_row(ps.last()))
    }
}

/// A URL up to its query, and the rows of the query.
pub open spec fn split_query(url: Seq<char>) -> (Seq<char>, Seq<KvView>) {
    let j = seek(url, '?', 0);
    if j < url.len() {
        (url.take(j), query_rows(split(url.skip(j + 1), '&')))
    } else {
        (url, seq![])
    }
}

fn row_of_piece(piece: &str) -> (r: Kv)
    ensures
        r@ == query_row(piece@),
{
    let x: Vec<char> = chars_of(piece);
    let j: usize = seek_char(x.as_slice(), '=', 0);
    if j < x.len() {
        let name: String = sub_text(x.as_slice(), 0, j);
        let value: String = sub_text(x.as_slice(), j + 1, x.len());
        assert(name@ =~= piece@.take(j as int));
        assert(value@ =~= piece@.skip(j + 1));
        Kv::new(name.as_str(), value.as_str())
    } else {
        let none: String = String::new();
        assert(none@ =~= seq![]);
        Kv::new(piece, none.as_str())
    }
}

/// A URL up to its query, and the rows of the query as they stand.
pub fn split_query_from_url(url: &str) -> (r: (String, Vec<Kv>))
    ensures
        (r.0@, views(r.1@)) == split_query(url@),
{
    let x: Vec<char> = chars_of(url);
    let j: usize = seek_char(x.as_slice(), '?', 0);
    let mut rows: Vec<Kv> = Vec::new();
    assert(views(rows@) =~= seq![]);
    if j >= x.len() {
        return (copy_text(url), rows);
    }
    let base: String = sub_text(x.as_slice(), 0, j);
    let query: String = sub_text(x.as_slice(), j + 1, x.len());
    assert(base@ =~= url@.take(j as int));
    assert(query@ =~= url@.skip(j + 1));
    let ps: Vec<String> = pieces(query.as_str(), '&');
    let ghost v = views(ps@);
    let mut i: usize = 0;
    assert(v.take(0) =~= seq![]);
    while i < ps.len()
        invariant
            i <= ps@.len(),
            v == views(ps@),
            views(rows@) == query_rows(v.take(i as int)),
        decreases ps@.len() - i,
    {
        proof {
            assert(v.take(i + 1).drop_last() =~= v.take(i as int));
            assert(v.take(i + 1).last() == ps@[i as int]@);
        }
        if !empty(ps[i].as_str()) {
            let row: Kv = row_of_piece(ps[i].as_str());
            proof {
                lemma_views_push(rows@, row);
            }
            rows.push(row);
        }
        i = i + 1;
    }
    assert(v.take(v.len() as int) =~= v);
    (base, rows)
}

/// Whether a row is put in a query.
pub open spec fn in_query(row: KvView) -> bool {
    row.enabled && (!is_blank(row.name) || !is_blank(row.value))
}

/// The pieces of a query.
pub open spec fn query_parts(rows: Seq<KvView>) -> Seq<Seq<char>>
    decreases rows.len(),
{
    if rows.len() == 0 {
        seq![]
    } else if in_query(rows.last()) {
        query_parts(rows.drop_last()).push(rows.last().name + "="@ + rows.last().value)
    } else {
        query_parts(rows.drop_last())
    }
}

/// A URL with its query replaced by the enabled rows.
pub open spec fn merge_query(url: Seq<char>, rows: Seq<KvView>) -> Seq<char> {
    let base = url.take(seek(url, '?', 0));
    let parts = query_parts(rows);
    if parts.len() == 0 {
        base
    } else {
        base + "?"@ + join(parts, "&"@)
    }
}

/// The rows that are put in a query, as they are read from it.
pub open spec fn sent_rows(rows: Seq<KvView>) -> Seq<KvView>
    decreases rows.len(),
{
    if rows.len() == 0 {
        seq![]
    } else if in_query(rows.last()) {
        sent_rows(rows.drop_last()).push(kv_row(rows.last().name, rows.last().value))
    } else {
        sent_rows(rows.drop_last())
    }
}

/// Whether a row can be told from the rest of a query.
pub open spec fn is_plain_row(row: KvView) -> bool {
    !row.name.contains('=') && !row.name.contains('&') && !row.value.contains('&')
}

proof fn lemma_query_rows(rows: Seq<KvView>)
    requires
        forall|i: int| 0 <= i < rows.len() && in_query(rows[i]) ==> is_plain_row(#[trigger] rows[i]),
    ensures
        query_rows(query_parts(rows)) == sent_rows(rows),
        forall|i: int|
            0 <= i < query_parts(rows).len() ==> !(#[trigger] query_parts(rows)[i]).contains('&'),
        query_parts(rows).len() == 0 ==> sent_rows(rows).len() == 0,
    decreases rows.len(),
{
    if rows.len() > 0 {
        let d = rows.drop_last();
        let row = rows.last();
        assert forall|i: int| 0 <= i < d.len() && in_query(d[i]) implies is_plain_row(#[trigger] d[i]) by {
            assert(d[i] == rows[i]);
        }
        lemma_query_rows(d);
        if in_query(row) {
            assert(is_plain_row(rows[rows.len() - 1]));
            reveal_strlit("=");
            let piece = row.name + "="@ + row.value;
            let n = row.name.len() as int;
            assert forall|k: int| 0 <= k < n implies piece[k] != '=' by {
                assert(row.name.contains(row.name[k]));
            }
            assert(piece[n] == '=');
            lemma_seek_is(piece, '=', 0, n);
            assert(piece.take(n) =~= row.name);
            assert(piece.skip(n + 1) =~= row.value);
            let ps = query_parts(d).push(piece);
            assert(query_parts(rows) =~= ps);
            assert(ps.drop_last() =~= query_parts(d));
            if piece.contains('&') {
                let k = choose|k: int| 0 <= k < piece.len() && piece[k] == '&';
                if k < n {
                    assert(row.name.contains('&'));
                } else if k > n {
                    assert(row.value[k - n - 1] == '&');
                    assert(row.value.contains('&'));
                }
            }
            assert forall|i: int| 0 <= i < ps.len() implies !(#[trigger] ps[i]).contains('&') by {
                if i < query_parts(d).len() {
                    assert(ps[i] == query_parts(d)[i]);
                }
            }
        }
    }
}

/// What is put in the query of a URL is read back from it: the rows that are enabled and say
/// something, and the URL up to its query.
pub proof fn law_query_read_back(url: Seq<char>, rows: Seq<KvView>)
    requires
        forall|i: int| 0 <= i < rows.len() && in_query(rows[i]) ==> is_plain_row(#[trigger] rows[i]),
    ensures
        split_query(merge_query(url, rows)) == (url.take(seek(url, '?', 0)), sent_rows(rows)),
{
    lemma_query_rows(rows);
    let base = url.take(seek(url, '?', 0));
    lemma_seek(url, '?', 0);
    let n = base.len() as int;
    let m = merge_query(url, rows);
    let parts = query_parts(rows);
    reveal_strlit("?");
    reveal_strlit("&");
    assert forall|k: int| 0 <= k < n implies m[k] != '?' by {
        assert(m[k] == url[k]);
    }
    if parts.len() == 0 {
        lemma_seek_is(m, '?', 0, n);
        assert(sent_rows(rows) =~= seq![]);
    } else {
        assert(m[n] == '?');
        lemma_seek_is(m, '?', 0, n);
        assert(m.take(n) =~= base);
        assert("&"@ =~= seq!['&']);
        assert(m.skip(n + 1) =~= join(parts, seq!['&']));
        law_split_joined(parts, '&');
    }
}

/// A URL with its query replaced by the enabled rows.
pub fn merge_query_into_url(url: &str, query: &[Kv]) -> (r: String)
    ensures
        r@ == merge_query(url@, views(query@)),
{
    let x: Vec<char> = chars_of(url);
    let j: usize = seek_char(x.as_slice(), '?', 0);
    let base: String = sub_text(x.as_slice(), 0, j);
    assert(base@ =~= url@.take(j as int));
    let ghost v = views(query@);
    let mut parts: Vec<String> = Vec::new();
    let mut i: usize = 0;
    assert(v.take(0) =~= seq![]);
    assert(views(parts@) =~= query_parts(v.take(0)));
    while i < query.len()
        invariant
            i <= query@.len(),
            v == views(query@),
            views(parts@) == query_parts(v.take(i as int)),
        decreases query@.len() - i,
    {
        proof {
            assert(v.take(i + 1).drop_last() =~= v.take(i as int));
            assert(v.take(i + 1).last() == query@[i as int]@);
        }
        let row: &Kv = &query[i];
        if row.enabled && (!blank(row.name.as_str()) || !blank(row.value.as_str())) {
            let part: String = cat3(row.name.as_str(), "=", row.value.as_str());
            proof {
                lemma_views_push(parts@, part);
            }
            parts.push(part);
        }
        i = i + 1;
    }
    assert(v.take(v.len() as int) =~= v);
    if parts.len() == 0 {
        return base;
    }
    let q: String = joined(&parts, "&");
    cat3(base.as_str(), "?", q.as_str())
}

// ---- percent encoding ------------------------------------------------------------------

/// A byte that `encodeURIComponent` leaves as it is.
pub open spec fn plain_byte(b: u8) -> bool {
    ||| 0x41 <= b <= 0x5A
    ||| 0x61 <= b <= 0x7A
    ||| 0x30 <= b <= 0x39
    ||| b == 0x2D
    ||| b == 0x5F
    ||| b == 0x2E
    ||| b == 0x21
    ||| b == 0x7E
    ||| b == 0x2A
    ||| b == 0x27
    ||| b == 0x28
    ||| b == 0x29
}

/// The upper-case hexadecimal digit of a number below sixteen.
pub open spec fn hex_digit(d: int) -> char {
    if d < 10 {
        (0x30 + d) as char
    } else {
        (0x41 + d - 10) as char
    }
}

/// A byte as `encodeURIComponent` writes it.
pub open spec fn encoded_byte(b: u8) -> Seq<char> {
    if plain_byte(b) {
        seq![b as char]
    } else {
        seq!['%', hex_digit(b as int / 16), hex_digit(b as int % 16)]
    }
}

/// Bytes as `encodeURIComponent` writes them.
pub open spec fn encoded_bytes(bs: Seq<u8>) -> Seq<char>
    decreases bs.len(),
{
    if bs.len() == 0 {
        seq![]
    } else {
        encoded_bytes(bs.drop_last()) + encoded_byte(bs.last())
    }
}

/// A text as `encodeURIComponent` writes it.
pub open spec fn encoded(s: Seq<char>) -> Seq<char> {
    encoded_bytes(vstd::utf8::encode_utf8(s))
}

fn hex_of(d: u8) -> (r: char)
    requires
        d < 16,
    ensures
        r == hex_digit(d as int),
{
    if d < 10 {
        (0x30 + d) as char
    } else {
        (0x41 + (d - 10)) as char
    }
}

fn plain(b: u8) -> (r: bool)
    ensures
        r == plain_byte(b),
{
    (0x41 <= b && b <= 0x5A) || (0x61 <= b && b <= 0x7A) || (0x30 <= b && b <= 0x39) || b == 0x2D || b
        == 0x5F || b == 0x2E || b == 0x21 || b == 0x7E || b == 0x2A || b == 0x27 || b == 0x28 || b
        == 0x29
}

/// `encodeURIComponent`: every byte but the unreserved ones is percent-encoded.
pub fn encode_uri_component(s: &str) -> (r: String)
    ensures
        r@ == encoded(s@),
{
    let bs: &[u8] = s.as_bytes();
    let mut out: String = String::new();
    let mut i: usize = 0;
    assert(out@ =~= encoded_bytes(bs@.take(0)));
    while i < bs.len()
        invariant
            i <= bs@.len(),
            out@ == encoded_bytes(bs@.take(i as int)),
        decreases bs@.len() - i,
    {
        let b: u8 = bs[i];
        let ghost before = out@;
        if plain(b) {
            out.push(b as char);
        } else {
            out.push('%');
            out.push(hex_of(b / 16));
            out.push(hex_of(b % 16));
        }
        proof {
            assert(bs@.take(i + 1).drop_last() =~= bs@.take(i as int));
            assert(out@ =~= before + encoded_byte(b));
        }
        i = i + 1;
    }
    assert(bs@.take(bs@.len() as int) =~= bs@);
    out
}

/// The character of a digit of base64.
pub open spec fn base64_char(n: int) -> char {
    if n < 26 {
        ('A' as int + n) as char
    } else if n < 52 {
        ('a' as int + (n - 26)) as char
    } else if n < 62 {
        ('0' as int + (n - 52)) as char
    } else if n == 62 {
        '+'
    } else {
        '/'
    }
}

/// The base64 text of bytes: four digits for three bytes, and at the end a `=` for each byte
/// that is missing.
pub open spec fn base64_of(bytes: Seq<u8>) -> Seq<char>
    decreases bytes.len(),
{
    if bytes.len() == 0 {
        seq![]
    } else {
        let a = bytes[0] as int;
        let b = if bytes.len() > 1 {
            bytes[1] as int
        } else {
            0
        };
        let c = if bytes.len() > 2 {
            bytes[2] as int
        } else {
            0
        };
        seq![
            base64_char(a / 4),
            base64_char(a % 4 * 16 + b / 16),
            if bytes.len() > 1 {
                base64_char(b % 16 * 4 + c / 64)
            } else {
                '='
            },
            if bytes.len() > 2 {
                base64_char(c % 64)
            } else {
                '='
            },
        ] + base64_of(bytes.skip(if bytes.len() < 3 {
            bytes.len() as int
        } else {
            3
        }))
    }
}

/// `base64::engine::general_purpose::STANDARD.encode`: base64 with the standard alphabet and
/// padding.
#[verifier::external_body]
pub fn base64_encode(bytes: &[u8]) -> (r: String)
    ensures
        r@ == base64_of(bytes@),
{
    base64::Engine::encode(&base64::engine::general_purpose::STANDARD, bytes)
}

/// The value of an `Authorization` header for a user name and a password.
pub open spec fn basic_value(username: Seq<char>, password: Seq<char>) -> Seq<char> {
    "Basic "@ + base64_of(vstd::utf8::encode_utf8(username + ":"@ + password))
}

/// The value of an `Authorization` header for a user name and a password.
pub fn basic_credentials(username: &str, password: &str) -> (r: String)
    ensures
        r@ == basic_value(username@, password@),
{
    let both: String = cat3(username, ":", password);
    let code: String = base64_encode(both.as_str().as_bytes());
    cat("Basic ", code.as_str())
}

// ---- assembly --------------------------------------------------------------------------

/// The headers of the active rows.
pub open spec fn sent_headers(rows: Seq<KvView>) -> Seq<KvPairView>
    decreases rows.len(),
{
    if rows.len() == 0 {
        seq![]
    } else if row_active(rows.last().enabled, rows.last().name) {
        sent_headers(rows.drop_last()).push(pair(trim(rows.last().name), rows.last().value))
    } else {
        sent_headers(rows.drop_last())
    }
}

fn header_list(rows: &Vec<Kv>) -> (r: Vec<KvPair>)
    ensures
        views(r@) == sent_headers(views(rows@)),
{
    let ghost v = views(rows@);
    let mut out: Vec<KvPair> = Vec::new();
    let mut i: usize = 0;
    assert(v.take(0) =~= seq![]);
    assert(views(out@) =~= sent_headers(v.take(0)));
    while i < rows.len()
        invariant
            i <= rows@.len(),
            v == views(rows@),
            views(out@) == sent_headers(v.take(i as int)),
        decreases rows@.len() - i,
    {
        proof {
            assert(v.take(i + 1).drop_last() =~= v.take(i as int));
            assert(v.take(i + 1).last() == rows@[i as int]@);
        }
        if rows[i].active() {
            let name: String = trimmed(rows[i].name.as_str());
            let h: KvPair = KvPair::new(name.as_str(), rows[i].value.as_str());
            proof {
                lemma_views_push(out@, h);
            }
            out.push(h);
        }
        i = i + 1;
    }
    assert(v.take(v.len() as int) =~= v);
    out
}

/// The headers and the URL with a bearer token, basic credentials or an API key added.
pub open spec fn static_auth(auth: AuthSpecView, headers: Seq<KvPairView>, url: Seq<char>) -> (
    Seq<KvPairView>,
    Seq<char>,
) {
    match auth.kind {
        AuthType::Bearer => match auth.bearer {
            Some(b) if b.token.len() > 0 => (
                headers.push(pair("Authorization"@, "Bearer "@ + b.token)),
                url,
            ),
            _ => (headers, url),
        },
        AuthType::Basic => {
            let b = match auth.basic {
                Some(b) => b,
                None => empty_basic(),
            };
            (headers.push(pair("Authorization"@, basic_value(b.username, b.password))), url)
        },
        AuthType::Apikey => match auth.apikey {
            Some(k) if k.key.len() > 0 => match k.place {
                ApikeyIn::Header => (headers.push(pair(k.key, k.value)), url),
                ApikeyIn::Query => (
                    headers,
                    merge_query(url, split_query(url).1.push(kv_row(k.key, k.value))),
                ),
            },
            _ => (headers, url),
        },
        _ => (headers, url),
    }
}

fn push_header(headers: &mut Vec<KvPair>, key: &str, value: &str)
    ensures
        views(final(headers)@) == views(old(headers)@).push(pair(key@, value@)),
{
    let h: KvPair = KvPair::new(key, value);
    proof {
        lemma_views_push(headers@, h);
    }
    headers.push(h);
}

fn apply_static_auth(auth: &AuthSpec, headers: &mut Vec<KvPair>, url: &mut String)
    ensures
        (views(final(headers)@), final(url)@) == static_auth(
            auth@,
            views(old(headers)@),
            old(url)@,
        ),
{
    match auth.kind {
        AuthType::Bearer => {
            if let Some(b) = &auth.bearer {
                if !empty(b.token.as_str()) {
                    let value: String = cat("Bearer ", b.token.as_str());
                    push_header(headers, "Authorization", value.as_str());
                }
            }
        },
        AuthType::Basic => {
            let b: BasicAuth = match &auth.basic {
                Some(b) => b.duplicate(),
                None => BasicAuth::default(),
            };
            let value: String = basic_credentials(b.username.as_str(), b.password.as_str());
            push_header(headers, "Authorization", value.as_str());
        },
        AuthType::Apikey => {
            if let Some(k) = &auth.apikey {
                if !empty(k.key.as_str()) {
                    match k.place {
                        ApikeyIn::Header => {
                            push_header(headers, k.key.as_str(), k.value.as_str());
                        },
                        ApikeyIn::Query => {
                            let (_, mut q): (String, Vec<Kv>) = split_query_from_url(url.as_str());
                            let row: Kv = Kv::new(k.key.as_str(), k.value.as_str());
                            proof {
                                lemma_views_push(q@, row);
                            }
                            q.push(row);
                            *url = merge_query_into_url(url.as_str(), q.as_slice());
                        },
                    }
                }
            }
        },
        _ => {},
    }
}

/// Whether a content type is among the headers.
pub open spec fn has_content_type(hs: Seq<KvPairView>) -> bool {
    exists|i: int| 0 <= i < hs.len() && lower((#[trigger] hs[i]).key) == lower("content-type"@)
}

/// The headers with a content type, unless they have one.
pub open spec fn with_content_type(hs: Seq<KvPairView>, ct: Seq<char>) -> Seq<KvPairView> {
    if ct.len() > 0 && !has_content_type(hs) {
        hs.push(pair("Content-Type"@, ct))
    } else {
        hs
    }
}

fn set_content_type(headers: &mut Vec<KvPair>, ct: &str)
    ensures
        views(final(headers)@) == with_content_type(views(old(headers)@), ct@),
{
    if empty(ct) {
        return ;
    }
    let ghost v = views(headers@);
    let mut i: usize = 0;
    while i < headers.len()
        invariant
            i <= headers@.len(),
            v == views(headers@),
            v == views(old(headers)@),
            forall|k: int| 0 <= k < i ==> lower((#[trigger] v[k]).key) != lower("content-type"@),
        decreases headers@.len() - i,
    {
        assert(v[i as int] == headers@[i as int]@);
        if same_ignoring_case(headers[i].key.as_str(), "content-type") {
            return ;
        }
        i = i + 1;
    }
    push_header(headers, "Content-Type", ct);
}

/// The default content type of a body type, or nothing.
fn default_or_empty(t: BodyType) -> (r: &'static str)
    ensures
        r@ == (match default_type(t) {
            Some(c) => c,
            None => seq![],
        }),
{
    match default_content_type(t) {
        Some(c) => c,
        None => {
            proof {
                reveal_strlit("");
                assert(""@ =~= seq![]);
            }
            ""
        },
    }
}

/// The pairs of an encoded form.
pub open spec fn encoded_pairs(rows: Seq<KvView>) -> Seq<Seq<char>>
    decreases rows.len(),
{
    if rows.len() == 0 {
        seq![]
    } else if row_active(rows.last().enabled, rows.last().name) {
        encoded_pairs(rows.drop_last()).push(
            encoded(trim(rows.last().name)) + "="@ + encoded(rows.last().value),
        )
    } else {
        encoded_pairs(rows.drop_last())
    }
}

fn pairs_of(rows: &Vec<Kv>) -> (r: Vec<String>)
    ensures
        views(r@) == encoded_pairs(views(rows@)),
{
    let ghost v = views(rows@);
    let mut out: Vec<String> = Vec::new();
    let mut i: usize = 0;
    assert(v.take(0) =~= seq![]);
    assert(views(out@) =~= encoded_pairs(v.take(0)));
    while i < rows.len()
        invariant
            i <= rows@.len(),
            v == views(rows@),
            views(out@) == encoded_pairs(v.take(i as int)),
        decreases rows@.len() - i,
    {
        proof {
            assert(v.take(i + 1).drop_last() =~= v.take(i as int));
            assert(v.take(i + 1).last() == rows@[i as int]@);
        }
        if rows[i].active() {
            let name: String = trimmed(rows[i].name.as_str());
            let left: String = encode_uri_component(name.as_str());
            let right: String = encode_uri_component(rows[i].value.as_str());
            let p: String = cat3(left.as_str(), "=", right.as_str());
            proof {
                lemma_views_push(out@, p);
            }
            out.push(p);
        }
        i = i + 1;
    }
    assert(v.take(v.len() as int) =~= v);
    out
}

/// The part of a form field.
pub open spec fn form_part(f: FormItemView) -> FormPartView {
    if f.kind == Some(FormKind::File) {
        FormPartView {
            name: trim(f.name),
            value: seq![],
            file_path: Some(trim(f.value)),
            file_name: Some(name_of_path(trim(f.value))),
            content_type: Some(type_of_extension(extension(trim(f.value)))),
        }
    } else {
        FormPartView {
            name: trim(f.name),
            value: f.value,
            file_path: None,
            file_name: None,
            content_type: None,
        }
    }
}

/// Whether a form field is sent; a file field without a file is not.
pub open spec fn field_sent(f: FormItemView) -> bool {
    row_active(f.enabled, f.name) && (f.kind != Some(FormKind::File) || !is_blank(f.value))
}

/// The parts of a form.
pub open spec fn form_parts(rows: Seq<FormItemView>) -> Seq<FormPartView>
    decreases rows.len(),
{
    if rows.len() == 0 {
        seq![]
    } else if field_sent(rows.last()) {
        form_parts(rows.drop_last()).push(form_part(rows.last()))
    } else {
        form_parts(rows.drop_last())
    }
}

fn part_of(f: &FormItem) -> (r: FormPart)
    ensures
        r@ == form_part(f@),
{
    let name: String = trimmed(f.name.as_str());
    if !f.is_file() {
        return FormPart {
            name,
            value: copy_text(f.value.as_str()),
            file_path: None,
            file_name: None,
            content_type: None,
        };
    }
    let path: String = trimmed(f.value.as_str());
    let value: String = String::new();
    assert(value@ =~= seq![]);
    FormPart {
        name,
        value,
        file_name: Some(base_name(path.as_str())),
        content_type: Some(copy_text(guess_content_type(path.as_str()))),
        file_path: Some(path),
    }
}

fn parts_of(rows: &Vec<FormItem>) -> (r: Vec<FormPart>)
    ensures
        views(r@) == form_parts(views(rows@)),
{
    let ghost v = views(rows@);
    let mut out: Vec<FormPart> = Vec::new();
    let mut i: usize = 0;
    assert(v.take(0) =~= seq![]);
    assert(views(out@) =~= form_parts(v.take(0)));
    while i < rows.len()
        invariant
            i <= rows@.len(),
            v == views(rows@),
            views(out@) == form_parts(v.take(i as int)),
        decreases rows@.len() - i,
    {
        proof {
            assert(v.take(i + 1).drop_last() =~= v.take(i as int));
            assert(v.take(i + 1).last() == rows@[i as int]@);
        }
        if rows[i].active() && (!rows[i].is_file() || !blank(rows[i].value.as_str())) {
            let p: FormPart = part_of(&rows[i]);
            proof {
                lemma_views_push(out@, p);
            }
            out.push(p);
        }
        i = i + 1;
    }
    assert(v.take(v.len() as int) =~= v);
    out
}

/// The content type that is given, or else the other one.
pub open spec fn given_type(given: Option<Seq<char>>, other: Seq<char>) -> Seq<char> {
    match given {
        Some(c) if c.len() > 0 => c,
        _ => other,
    }
}

/// The body of a message, and the headers with its content type. An empty body is not sent and
/// leaves no content type behind.
pub open spec fn body_of(b: BodySpecView, hs: Seq<KvPairView>) -> (
    Option<RequestBodyView>,
    Seq<KvPairView>,
) {
    match b.kind {
        BodyType::Json => match b.json {
            Some(v) if !(v is Null) => match json_pretty(v) {
                Some(t) if !is_blank(t) => (
                    Some(RequestBodyView::Text(t)),
                    with_content_type(hs, "application/json; charset=utf-8"@),
                ),
                _ => (None, hs),
            },
            _ => (None, hs),
        },
        BodyType::Xml => match b.xml {
            Some(t) if !is_blank(t) => (
                Some(RequestBodyView::Text(t)),
                with_content_type(hs, "application/xml; charset=utf-8"@),
            ),
            _ => (None, hs),
        },
        BodyType::Text => match b.text {
            Some(t) if t.len() > 0 => (
                Some(RequestBodyView::Text(t)),
                with_content_type(hs, given_type(b.content_type, "text/plain; charset=utf-8"@)),
            ),
            _ => (None, hs),
        },
        BodyType::FormUrlencoded => {
            let pairs = match b.urlencoded {
                Some(rows) => encoded_pairs(rows),
                None => seq![],
            };
            if pairs.len() > 0 {
                (
                    Some(RequestBodyView::Text(join(pairs, "&"@))),
                    with_content_type(hs, "application/x-www-form-urlencoded"@),
                )
            } else {
                (None, hs)
            }
        },
        BodyType::FormData => {
            let parts = match b.form_data {
                Some(rows) => form_parts(rows),
                None => seq![],
            };
            if parts.len() > 0 {
                (Some(RequestBodyView::Form(parts)), hs)
            } else {
                (None, hs)
            }
        },
        BodyType::Binary => match b.file_path {
            Some(p) if !is_blank(p) => (
                Some(RequestBodyView::File(trim(p))),
                with_content_type(
                    hs,
                    given_type(b.content_type, type_of_extension(extension(trim(p)))),
                ),
            ),
            _ => (None, hs),
        },
        BodyType::NoBody => (None, hs),
    }
}

fn build_body(body: &BodySpec, headers: &mut Vec<KvPair>) -> (r: Option<RequestBody>)
    ensures
        opt_view(r) == body_of(body@, views(old(headers)@)).0,
        views(final(headers)@) == body_of(body@, views(old(headers)@)).1,
{
    match body.kind {
        BodyType::Json => {
            if let Some(v) = &body.json {
                if !v.is_null() {
                    if let Some(t) = pretty(v) {
                        if !blank(t.as_str()) {
                            set_content_type(headers, default_or_empty(BodyType::Json));
                            return Some(RequestBody::Text(t));
                        }
                    }
                }
            }
            None
        },
        BodyType::Xml => {
            if let Some(t) = &body.xml {
                if !blank(t.as_str()) {
                    set_content_type(headers, default_or_empty(BodyType::Xml));
                    return Some(RequestBody::Text(copy_text(t.as_str())));
                }
            }
            None
        },
        BodyType::Text => {
            if let Some(t) = &body.text {
                if !empty(t.as_str()) {
                    let ct: String = chosen_type(
                        &body.content_type,
                        default_or_empty(BodyType::Text),
                    );
                    set_content_type(headers, ct.as_str());
                    return Some(RequestBody::Text(copy_text(t.as_str())));
                }
            }
            None
        },
        BodyType::FormUrlencoded => {
            if let Some(rows) = &body.urlencoded {
                let pairs: Vec<String> = pairs_of(rows);
                if pairs.len() > 0 {
                    set_content_type(headers, default_or_empty(BodyType::FormUrlencoded));
                    return Some(RequestBody::Text(joined(&pairs, "&")));
                }
            }
            None
        },
        BodyType::FormData => {
            if let Some(rows) = &body.form_data {
                let parts: Vec<FormPart> = parts_of(rows);
                if parts.len() > 0 {
                    return Some(RequestBody::Form(parts));
                }
            }
            None
        },
        BodyType::Binary => {
            if let Some(p) = &body.file_path {
                if !blank(p.as_str()) {
                    let path: String = trimmed(p.as_str());
                    let ct: String = chosen_type(
                        &body.content_type,
                        guess_content_type(path.as_str()),
                    );
                    set_content_type(headers, ct.as_str());
                    return Some(RequestBody::File(path));
                }
            }
            None
        },
        BodyType::NoBody => None,
    }
}

fn chosen_type(given: &Option<String>, other: &str) -> (r: String)
    ensures
        r@ == given_type(opt_view(*given), other@),
{
    if let Some(c) = given {
        if !empty(c.as_str()) {
            return copy_text(c.as_str());
        }
    }
    copy_text(other)
}

/// The message of a configured request.
pub open spec fn built(spec: HttpSpecView) -> HttpRequestView {
    let (base, in_url) = split_query(trim(spec.url));
    let (headers, url) = static_auth(
        spec.auth,
        sent_headers(spec.headers),
        merge_query(base, in_url + spec.query),
    );
    let (body, all) = body_of(spec.body, headers);
    HttpRequestView { method: uppercase(trim(spec.method)), url, headers: all, body }
}

/// The message of a configured request, whose variables have been replaced. The query of the URL
/// and the query table are merged; headers that are not active are dropped; a content type that
/// is given wins over the default. The method is in capitals.
pub fn build(spec: &HttpSpec) -> (r: HttpRequest)
    ensures
        r@ == built(spec@),
        is_ascii_text(trim(spec.method@)) ==> r.method@ == upper(trim(spec.method@)),
{
    let trimmed_url: String = trimmed(spec.url.as_str());
    let (base, mut query): (String, Vec<Kv>) = split_query_from_url(trimmed_url.as_str());
    let ghost in_url = views(query@);
    let mut more: Vec<Kv> = duplicates(&spec.query);
    let ghost extra = more@;
    let ghost start = query@;
    query.append(&mut more);
    assert(views(query@) =~= in_url + spec@.query) by {
        assert(views(start + extra) =~= views(start) + views(extra));
    }
    let mut url: String = merge_query_into_url(base.as_str(), query.as_slice());
    let mut headers: Vec<KvPair> = header_list(&spec.headers);
    apply_static_auth(&spec.auth, &mut headers, &mut url);
    let body: Option<RequestBody> = build_body(&spec.body, &mut headers);
    let method: String = trimmed(spec.method.as_str());
    HttpRequest { method: to_upper(method.as_str()), url, headers, body }
}

// ---- laws of encoding ------------------------------------------------------------------

proof fn lemma_utf8_joined(a: Seq<char>, b: Seq<char>)
    ensures
        vstd::utf8::encode_utf8(a + b) == vstd::utf8::encode_utf8(a) + vstd::utf8::encode_utf8(b),
    decreases a.len(),
{
    if a.len() == 0 {
        assert(a + b =~= b);
        assert(vstd::utf8::encode_utf8(a) + vstd::utf8::encode_utf8(b) =~= vstd::utf8::encode_utf8(b));
    } else {
        assert((a + b).drop_first() =~= a.drop_first() + b);
        lemma_utf8_joined(a.drop_first(), b);
        assert(vstd::utf8::encode_utf8(a + b) =~= vstd::utf8::encode_utf8(a)
            + vstd::utf8::encode_utf8(b));
    }
}

proof fn lemma_bytes_joined(a: Seq<u8>, b: Seq<u8>)
    ensures
        encoded_bytes(a + b) == encoded_bytes(a) + encoded_bytes(b),
    decreases b.len(),
{
    if b.len() == 0 {
        assert(a + b =~= a);
        assert(encoded_bytes(a) + encoded_bytes(b) =~= encoded_bytes(a));
    } else {
        assert((a + b).drop_last() =~= a + b.drop_last());
        assert((a + b).last() == b.last());
        lemma_bytes_joined(a, b.drop_last());
        assert(encoded_bytes(a + b) =~= encoded_bytes(a) + encoded_bytes(b));
    }
}

/// A text is encoded piece by piece.
pub proof fn law_encoded_joined(a: Seq<char>, b: Seq<char>)
    ensures
        encoded(a + b) == encoded(a) + encoded(b),
{
    lemma_utf8_joined(a, b);
    lemma_bytes_joined(vstd::utf8::encode_utf8(a), vstd::utf8::encode_utf8(b));
}

/// Whether a character is encoded as itself.
pub open spec fn is_unreserved(c: char) -> bool {
    '\0' <= c <= '\u{7f}' && plain_byte(c as u8)
}

proof fn lemma_ascii_byte(c: char)
    requires
        '\0' <= c <= '\u{7f}',
    ensures
        (c as u8) as char == c,
{
}

proof fn lemma_plain_bytes(bs: Seq<u8>, s: Seq<char>)
    requires
        bs.len() == s.len(),
        forall|i: int| 0 <= i < s.len() ==> is_unreserved(#[trigger] s[i]) && bs[i] == s[i] as u8,
    ensures
        encoded_bytes(bs) == s,
    decreases bs.len(),
{
    if bs.len() > 0 {
        let n = s.len() - 1;
        assert(is_unreserved(s[n]));
        assert forall|i: int| 0 <= i < n implies is_unreserved(#[trigger] s.drop_last()[i])
            && bs.drop_last()[i] == s.drop_last()[i] as u8 by {
            assert(s.drop_last()[i] == s[i]);
        }
        lemma_plain_bytes(bs.drop_last(), s.drop_last());
        lemma_ascii_byte(s[n]);
        assert(encoded_bytes(bs) =~= s);
    }
}

/// A text of unreserved characters is encoded as itself.
pub proof fn law_encoded_plain(s: Seq<char>)
    requires
        forall|i: int| 0 <= i < s.len() ==> is_unreserved(#[trigger] s[i]),
    ensures
        encoded(s) == s,
{
    assert forall|i: int| 0 <= i < s.len() implies '\0' <= #[trigger] s[i] <= '\u{7f}' by {
        assert(is_unreserved(s[i]));
    }
    assert(vstd::utf8::is_ascii_chars(s));
    vstd::utf8::is_ascii_chars_encode_utf8(s);
    let bs = vstd::utf8::encode_utf8(s);
    assert forall|i: int| 0 <= i < s.len() implies is_unreserved(#[trigger] s[i]) && bs[i] == s[i] as u8 by {
        assert(s[i] as u8 == bs[i]);
    }
    lemma_plain_bytes(bs, s);
}

/// The value of an upper-case hexadecimal digit; nothing for another character.
pub open spec fn hex_digit_value(c: char) -> Option<int> {
    if 0x30 <= c as u32 <= 0x39 {
        Some(c as u32 - 0x30)
    } else if 0x41 <= c as u32 <= 0x46 {
        Some(c as u32 - 0x41 + 10)
    } else {
        None
    }
}

/// The bytes that an encoded text stands for: an unreserved character for itself, and a percent
/// sign with two upper-case hexadecimal digits for a byte. Anything else is no encoded text.
pub open spec fn decoded(t: Seq<char>) -> Option<Seq<u8>>
    decreases t.len(),
{
    if t.len() == 0 {
        Some(seq![])
    } else if is_unreserved(t[0]) {
        match decoded(t.skip(1)) {
            Some(r) => Some(seq![t[0] as u8] + r),
            None => None,
        }
    } else if t[0] == '%' && t.len() >= 3 {
        match (hex_digit_value(t[1]), hex_digit_value(t[2]), decoded(t.skip(3))) {
            (Some(h), Some(l), Some(r)) => Some(seq![(h * 16 + l) as u8] + r),
            _ => None,
        }
    } else {
        None
    }
}

proof fn lemma_decoded_byte(b: u8, t: Seq<char>)
    requires
        decoded(t) is Some,
    ensures
        decoded(encoded_byte(b) + t) == Some(seq![b] + decoded(t)->0),
{
    let e = encoded_byte(b);
    let all = e + t;
    assert(all.skip(e.len() as int) =~= t);
    assert(all[0] == e[0]);
    if plain_byte(b) {
        assert((b as char) as u8 == b);
        assert(is_unreserved(all[0]));
    } else {
        let h = b as int / 16;
        let l = b as int % 16;
        assert(all[1] == e[1] && all[2] == e[2]);
        assert(hex_digit_value(hex_digit(h)) == Some(h));
        assert(hex_digit_value(hex_digit(l)) == Some(l));
        assert(h * 16 + l == b);
        assert(!is_unreserved('%'));
    }
}

proof fn lemma_decoded_bytes(bs: Seq<u8>)
    ensures
        decoded(encoded_bytes(bs)) == Some(bs),
    decreases bs.len(),
{
    if bs.len() == 0 {
        assert(bs =~= seq![]);
    } else {
        let first = seq![bs[0]];
        let rest = bs.skip(1);
        lemma_decoded_bytes(rest);
        assert(first + rest =~= bs);
        lemma_bytes_joined(first, rest);
        assert(first.drop_last() =~= seq![]);
        assert(encoded_bytes(first.drop_last()) =~= seq![]);
        assert(encoded_bytes(first) =~= encoded_byte(bs[0]));
        lemma_decoded_byte(bs[0], encoded_bytes(rest));
    }
}

/// An encoded text consists of unreserved characters and of percent signs with two upper-case
/// hexadecimal digits, and it stands for the bytes of the text in UTF-8.
pub proof fn law_encoded_read_back(s: Seq<char>)
    ensures
        decoded(encoded(s)) == Some(vstd::utf8::encode_utf8(s)),
{
    lemma_decoded_bytes(vstd::utf8::encode_utf8(s));
}

// ---- laws of assembly ------------------------------------------------------------------

/// Whether `after` are the headers `before` with a content type: one that is among them, whatever
/// its case, stays the only one; otherwise `ct` comes last.
pub open spec fn typed(before: Seq<KvPairView>, after: Seq<KvPairView>, ct: Seq<char>) -> bool {
    if exists|i: int| 0 <= i < before.len() && lower((#[trigger] before[i]).key) == "content-type"@ {
        after == before
    } else {
        &&& after.len() == before.len() + 1
        &&& after.take(before.len() as int) == before
        &&& after.last().key == "Content-Type"@
        &&& after.last().value == ct
    }
}

proof fn lemma_typed(hs: Seq<KvPairView>, ct: Seq<char>)
    requires
        ct.len() > 0,
    ensures
        typed(hs, with_content_type(hs, ct), ct),
{
    reveal_strlit("content-type");
    assert(lower("content-type"@) =~= "content-type"@);
    if !has_content_type(hs) {
        assert(with_content_type(hs, ct).take(hs.len() as int) =~= hs);
    }
}

/// What a body adds to a message. A body that says something is sent as it is configured, with a
/// content type; one that says nothing is left out, with nothing added; and the method and the URL
/// do not depend on it. `plain` is the same request without a body.
pub proof fn law_body_sent(spec: HttpSpecView, plain: HttpSpecView)
    requires
        plain.body.kind is NoBody,
        plain == (HttpSpecView { body: plain.body, ..spec }),
    ensures
        built(plain).body is None,
        built(spec).method == built(plain).method,
        built(spec).url == built(plain).url,
        spec.body.kind is NoBody ==> built(spec) == built(plain),
        spec.body.kind is Xml ==> match spec.body.xml {
            Some(t) => if is_blank(t) {
                built(spec) == built(plain)
            } else {
                &&& built(spec).body == Some(RequestBodyView::Text(t))
                &&& typed(
                    built(plain).headers,
                    built(spec).headers,
                    "application/xml; charset=utf-8"@,
                )
            },
            None => built(spec) == built(plain),
        },
        spec.body.kind is Text ==> match spec.body.text {
            Some(t) => if t.len() == 0 {
                built(spec) == built(plain)
            } else {
                &&& built(spec).body == Some(RequestBodyView::Text(t))
                &&& typed(
                    built(plain).headers,
                    built(spec).headers,
                    match spec.body.content_type {
                        Some(ct) => if ct.len() > 0 {
                            ct
                        } else {
                            "text/plain; charset=utf-8"@
                        },
                        None => "text/plain; charset=utf-8"@,
                    },
                )
            },
            None => built(spec) == built(plain),
        },
        spec.body.kind is Json ==> match spec.body.json {
            None => built(spec) == built(plain),
            Some(JsonView::Null) => built(spec) == built(plain),
            Some(v) => match json_pretty(v) {
                None => built(spec) == built(plain),
                Some(t) => if is_blank(t) {
                    built(spec) == built(plain)
                } else {
                    &&& built(spec).body == Some(RequestBodyView::Text(t))
                    &&& typed(
                        built(plain).headers,
                        built(spec).headers,
                        "application/json; charset=utf-8"@,
                    )
                },
            },
        },
        spec.body.kind is Binary ==> match spec.body.file_path {
            Some(path) => if is_blank(path) {
                built(spec) == built(plain)
            } else {
                &&& built(spec).body == Some(RequestBodyView::File(trim(path)))
                &&& typed(
                    built(plain).headers,
                    built(spec).headers,
                    match spec.body.content_type {
                        Some(ct) => if ct.len() > 0 {
                            ct
                        } else {
                            type_of_extension(extension(path))
                        },
                        None => type_of_extension(extension(path)),
                    },
                )
            },
            None => built(spec) == built(plain),
        },
        spec.body.kind is FormUrlencoded ==> match spec.body.urlencoded {
            Some(rows) => if exists|i: int|
                0 <= i < rows.len() && (#[trigger] rows[i]).enabled && !is_blank(rows[i].name) {
                &&& built(spec).body == Some(RequestBodyView::Text(join(encoded_pairs(rows), "&"@)))
                &&& typed(
                    built(plain).headers,
                    built(spec).headers,
                    "application/x-www-form-urlencoded"@,
                )
            } else {
                built(spec) == built(plain)
            },
            None => built(spec) == built(plain),
        },
        spec.body.kind is FormData ==> match spec.body.form_data {
            Some(rows) => if form_parts(rows).len() > 0 {
                &&& built(spec).body == Some(RequestBodyView::Form(form_parts(rows)))
                &&& built(spec).headers == built(plain).headers
            } else {
                built(spec) == built(plain)
            },
            None => built(spec) == built(plain),
        },
{
    reveal_strlit("application/xml; charset=utf-8");
    reveal_strlit("application/json; charset=utf-8");
    reveal_strlit("text/plain; charset=utf-8");
    reveal_strlit("application/x-www-form-urlencoded");
    let hs = built(plain).headers;
    lemma_typed(hs, "application/xml; charset=utf-8"@);
    lemma_typed(hs, "application/json; charset=utf-8"@);
    lemma_typed(hs, "text/plain; charset=utf-8"@);
    lemma_typed(hs, "application/x-www-form-urlencoded"@);
    match spec.body.content_type {
        Some(ct) if ct.len() > 0 => {
            lemma_typed(hs, ct);
        },
        _ => {},
    }
    match spec.body.urlencoded {
        Some(rows) => {
            lemma_pairs_of(rows);
        },
        None => {},
    }
    match spec.body.file_path {
        Some(path) => {
            lemma_trim_twice(path);
            let ct = type_of_extension(extension(path));
            lemma_type_named(extension(path));
            lemma_typed(hs, ct);
        },
        None => {},
    }
}

proof fn lemma_type_named(ext: Seq<char>)
    ensures
        type_of_extension(ext).len() > 0,
{
    reveal_strlit("application/json");
    reveal_strlit("application/xml");
    reveal_strlit("text/plain");
    reveal_strlit("text/csv");
    reveal_strlit("text/html");
    reveal_strlit("text/css");
    reveal_strlit("text/javascript");
    reveal_strlit("text/markdown");
    reveal_strlit("application/pdf");
    reveal_strlit("application/zip");
    reveal_strlit("application/gzip");
    reveal_strlit("application/x-tar");
    reveal_strlit("image/png");
    reveal_strlit("image/jpeg");
    reveal_strlit("image/gif");
    reveal_strlit("image/webp");
    reveal_strlit("image/svg+xml");
    reveal_strlit("image/bmp");
    reveal_strlit("image/x-icon");
    reveal_strlit("audio/mpeg");
    reveal_strlit("audio/wav");
    reveal_strlit("video/mp4");
    reveal_strlit("video/quicktime");
    reveal_strlit("video/webm");
    reveal_strlit("application/msword");
    reveal_strlit("application/vnd.openxmlformats-officedocument.wordprocessingml.document");
    reveal_strlit("application/vnd.ms-excel");
    reveal_strlit("application/vnd.openxmlformats-officedocument.spreadsheetml.sheet");
    reveal_strlit("application/vnd.ms-powerpoint");
    reveal_strlit("application/vnd.openxmlformats-officedocument.presentationml.presentation");
    reveal_strlit("application/octet-stream");
}

proof fn lemma_pairs_of(rows: Seq<KvView>)
    ensures
        encoded_pairs(rows).len() > 0 <==> exists|i: int|
            0 <= i < rows.len() && (#[trigger] rows[i]).enabled && !is_blank(rows[i].name),
    decreases rows.len(),
{
    if rows.len() > 0 {
        let d = rows.drop_last();
        lemma_pairs_of(d);
        assert(rows[rows.len() - 1] == rows.last());
        if exists|i: int| 0 <= i < d.len() && (#[trigger] d[i]).enabled && !is_blank(d[i].name) {
            let i = choose|i: int|
                0 <= i < d.len() && (#[trigger] d[i]).enabled && !is_blank(d[i].name);
            assert(rows[i] == d[i]);
        }
        if exists|i: int|
            0 <= i < rows.len() && (#[trigger] rows[i]).enabled && !is_blank(rows[i].name) {
            let i = choose|i: int|
                0 <= i < rows.len() && (#[trigger] rows[i]).enabled && !is_blank(rows[i].name);
            if i < d.len() {
                assert(d[i] == rows[i]);
            }
        }
    }
}

/// Rows are sent one by one and in order. Each row that is switched on and has a name adds its
/// header, its pair of an encoded form or its part of a form at the end, and no other row adds
/// anything. Names are trimmed and values are not; in an encoded form both are percent-encoded.
pub proof fn law_rows_sent(rows: Seq<KvView>, row: KvView)
    ensures
        sent_headers(seq![]).len() == 0,
        encoded_pairs(seq![]).len() == 0,
        row.enabled && !is_blank(row.name) ==> {
            &&& sent_headers(rows.push(row)) == sent_headers(rows).push(
                KvPairView { key: trim(row.name), value: row.value },
            )
            &&& encoded_pairs(rows.push(row)) == encoded_pairs(rows).push(
                encoded(trim(row.name)) + "="@ + encoded(row.value),
            )
        },
        !row.enabled || is_blank(row.name) ==> {
            &&& sent_headers(rows.push(row)) == sent_headers(rows)
            &&& encoded_pairs(rows.push(row)) == encoded_pairs(rows)
        },
{
    assert(rows.push(row).drop_last() =~= rows);
}

/// Fields of a form are sent one by one and in order: a text field that is switched on and has a
/// name is a part with its value, and a file field is a part with the path, the name and the type
/// of its file. A field without a name, one that is switched off and a file field without a file
/// add nothing.
pub proof fn law_fields_sent(rows: Seq<FormItemView>, f: FormItemView)
    ensures
        form_parts(seq![]).len() == 0,
        f.enabled && !is_blank(f.name) && f.kind != Some(FormKind::File) ==> form_parts(rows.push(f))
            == form_parts(rows).push(
            FormPartView {
                name: trim(f.name),
                value: f.value,
                file_path: None,
                file_name: None,
                content_type: None,
            },
        ),
        f.enabled && !is_blank(f.name) && f.kind == Some(FormKind::File) && !is_blank(f.value)
            ==> form_parts(rows.push(f)) == form_parts(rows).push(
            FormPartView {
                name: trim(f.name),
                value: seq![],
                file_path: Some(trim(f.value)),
                file_name: Some(name_of_path(f.value)),
                content_type: Some(type_of_extension(extension(f.value))),
            },
        ),
        !f.enabled || is_blank(f.name) || (f.kind == Some(FormKind::File) && is_blank(f.value))
            ==> form_parts(rows.push(f)) == form_parts(rows),
{
    assert(rows.push(f).drop_last() =~= rows);
    lemma_trim_twice(f.value);
}

/// What credentials add to a message without a body. A bearer token and a user name and password
/// are an `Authorization` header, an API key is a header of its own name, each after all others;
/// a token or a key that is empty adds nothing, nor do the kinds that need an exchange. `plain`
/// is the same request without credentials.
pub proof fn law_credentials_sent(spec: HttpSpecView, plain: HttpSpecView)
    requires
        spec.body.kind is NoBody,
        plain.auth.kind is NoAuth,
        plain == (HttpSpecView { auth: plain.auth, ..spec }),
    ensures
        built(plain).headers == sent_headers(spec.headers),
        built(plain).method == uppercase(trim(spec.method)),
        built(spec).method == built(plain).method,
        built(spec).body is None,
        spec.auth.kind is NoAuth || spec.auth.kind is Digest || spec.auth.kind is Oauth2 ==> built(
            spec,
        ) == built(plain),
        spec.auth.kind is Bearer ==> match spec.auth.bearer {
            Some(b) => if b.token.len() > 0 {
                built(spec) == (HttpRequestView {
                    headers: built(plain).headers.push(
                        KvPairView { key: "Authorization"@, value: "Bearer "@ + b.token },
                    ),
                    ..built(plain)
                })
            } else {
                built(spec) == built(plain)
            },
            None => built(spec) == built(plain),
        },
        spec.auth.kind is Basic ==> match spec.auth.basic {
            Some(b) => built(spec) == (HttpRequestView {
                headers: built(plain).headers.push(
                    KvPairView {
                        key: "Authorization"@,
                        value: "Basic "@ + base64_of(
                            vstd::utf8::encode_utf8(b.username + ":"@ + b.password),
                        ),
                    },
                ),
                ..built(plain)
            }),
            None => built(spec) == (HttpRequestView {
                headers: built(plain).headers.push(
                    KvPairView {
                        key: "Authorization"@,
                        value: "Basic "@ + base64_of(vstd::utf8::encode_utf8(":"@)),
                    },
                ),
                ..built(plain)
            }),
        },
        spec.auth.kind is Apikey ==> match spec.auth.apikey {
            Some(k) => if k.key.len() > 0 {
                k.place is Header ==> built(spec) == (HttpRequestView {
                    headers: built(plain).headers.push(KvPairView { key: k.key, value: k.value }),
                    ..built(plain)
                })
            } else {
                built(spec) == built(plain)
            },
            None => built(spec) == built(plain),
        },
{
    let none = Seq::<char>::empty();
    assert(none + ":"@ + none =~= ":"@);
}

/// One row more in the query table is one pair more at the end of the URL, unless the row is
/// switched off or says nothing; what was there before stays as it was.
pub proof fn law_query_row_sent(spec: HttpSpecView, row: KvView)
    requires
        spec.auth.kind is NoAuth,
    ensures
        ({
            let before = built(spec).url;
            let after = built(HttpSpecView { query: spec.query.push(row), ..spec }).url;
            if row.enabled && (!is_blank(row.name) || !is_blank(row.value)) {
                after == before + (if before.contains('?') {
                    "&"@
                } else {
                    "?"@
                }) + row.name + "="@ + row.value
            } else {
                after == before
            }
        }),
{
    let (base, in_url) = split_query(trim(spec.url));
    let rows = in_url + spec.query;
    assert(in_url + spec.query.push(row) =~= rows.push(row));
    let u = trim(spec.url);
    lemma_seek(u, '?', 0);
    assert(base =~= u.take(seek(u, '?', 0)));
    assert forall|k: int| 0 <= k < base.len() implies base[k] != '?' by {
        assert(base[k] == u[k]);
    }
    lemma_one_more_pair(base, rows, row);
}

proof fn lemma_one_more_pair(base: Seq<char>, rows: Seq<KvView>, row: KvView)
    requires
        forall|k: int| 0 <= k < base.len() ==> (#[trigger] base[k]) != '?',
    ensures
        merge_query(base, rows.push(row)) == (if row.enabled && (!is_blank(row.name) || !is_blank(
            row.value,
        )) {
            merge_query(base, rows) + (if merge_query(base, rows).contains('?') {
                "&"@
            } else {
                "?"@
            }) + row.name + "="@ + row.value
        } else {
            merge_query(base, rows)
        }),
{
    let before = merge_query(base, rows);
    let parts = query_parts(rows);
    assert(rows.push(row).drop_last() =~= rows);
    lemma_seek_is(base, '?', 0, base.len() as int);
    assert(base.take(base.len() as int) =~= base);
    reveal_strlit("?");
    if parts.len() == 0 {
        assert(before == base);
        if base.contains('?') {
            let k = choose|k: int| 0 <= k < base.len() && base[k] == '?';
            assert(base[k] != '?');
        }
    } else {
        assert(before[base.len() as int] == '?');
        assert(before.contains('?'));
    }
    if in_query(row) {
        let piece = row.name + "="@ + row.value;
        let more = parts.push(piece);
        assert(query_parts(rows.push(row)) == more);
        assert(more.drop_last() =~= parts);
        assert(more.last() == piece);
        let after = merge_query(base, rows.push(row));
        if parts.len() == 0 {
            assert(join(more, "&"@) == piece);
            assert(after =~= before + "?"@ + row.name + "="@ + row.value);
        } else {
            assert(join(more, "&"@) == join(parts, "&"@) + "&"@ + piece);
            assert(after =~= before + "&"@ + row.name + "="@ + row.value);
        }
    }
}

proof fn lemma_pieces_kept(ps: Seq<Seq<char>>)
    requires
        forall|i: int| 0 <= i < ps.len() ==> is_query_pair(#[trigger] ps[i]),
    ensures
        query_parts(query_rows(ps)) == ps,
    decreases ps.len(),
{
    if ps.len() > 0 {
        let d = ps.drop_last();
        let last = ps.last();
        assert forall|i: int| 0 <= i < d.len() implies is_query_pair(#[trigger] d[i]) by {
            assert(d[i] == ps[i]);
        }
        lemma_pieces_kept(d);
        assert(is_query_pair(ps[ps.len() - 1]));
        lemma_seek(last, '=', 0);
        let j = seek(last, '=', 0);
        if j == last.len() {
            let k = choose|k: int| 0 <= k < last.len() && last[k] == '=';
            assert(last[k] != '=');
        }
        let rows = query_rows(d);
        let row = query_row(last);
        assert(query_rows(ps) == rows.push(row));
        assert(rows.push(row).drop_last() =~= rows);
        reveal_strlit("=");
        assert(row.name + "="@ + row.value =~= last);
        assert(in_query(row));
        assert(d.push(last) =~= ps);
    } else {
        assert(query_parts(query_rows(ps)) =~= ps);
    }
}

/// Whether a piece of a query is a name and a value with an equals sign between them, one of
/// which says something.
pub open spec fn is_query_pair(piece: Seq<char>) -> bool {
    &&& piece.contains('=')
    &&& !piece.contains('&')
    &&& !is_blank(piece.take(seek(piece, '=', 0))) || !is_blank(piece.skip(seek(piece, '=', 0) + 1))
}

/// The query that a URL is written with is sent as it is written, before what the query table
/// adds: a URL with nothing to add to it is sent as it is, white space around it aside.
pub proof fn law_url_kept(spec: HttpSpecView, base: Seq<char>, pairs: Seq<Seq<char>>)
    requires
        spec.auth.kind is NoAuth,
        spec.query.len() == 0,
        !base.contains('?'),
        forall|i: int| 0 <= i < pairs.len() ==> is_query_pair(#[trigger] pairs[i]),
        trim(spec.url) == (if pairs.len() > 0 {
            base + "?"@ + join(pairs, "&"@)
        } else {
            base
        }),
    ensures
        built(spec).url == trim(spec.url),
{
    let u = trim(spec.url);
    let n = base.len() as int;
    reveal_strlit("?");
    reveal_strlit("&");
    assert("&"@ =~= seq!['&']);
    assert forall|k: int| 0 <= k < n implies u[k] != '?' by {
        assert(u[k] == base[k]);
        assert(base.contains(base[k]));
    }
    assert forall|k: int| 0 <= k < n implies base[k] != '?' by {
        assert(base.contains(base[k]));
    }
    lemma_seek_is(base, '?', 0, n);
    assert(base.take(n) =~= base);
    let (b, in_url) = split_query(u);
    assert(in_url + spec.query =~= in_url);
    if pairs.len() > 0 {
        assert(u[n] == '?');
        lemma_seek_is(u, '?', 0, n);
        assert(u.take(n) =~= base);
        assert(u.skip(n + 1) =~= join(pairs, seq!['&']));
        assert forall|i: int| 0 <= i < pairs.len() implies !(#[trigger] pairs[i]).contains('&') by {
            assert(is_query_pair(pairs[i]));
        }
        law_split_joined(pairs, '&');
        lemma_pieces_kept(pairs);
    } else {
        lemma_seek_is(u, '?', 0, n);
    }
}

proof fn lemma_rows_plain(ps: Seq<Seq<char>>)
    requires
        forall|i: int| 0 <= i < ps.len() ==> !(#[trigger] ps[i]).contains('&'),
    ensures
        forall|i: int| 0 <= i < query_rows(ps).len() ==> is_plain_row(#[trigger] query_rows(ps)[i]),
    decreases ps.len(),
{
    if ps.len() > 0 {
        let d = ps.drop_last();
        let last = ps.last();
        assert forall|i: int| 0 <= i < d.len() implies !(#[trigger] d[i]).contains('&') by {
            assert(d[i] == ps[i]);
        }
        lemma_rows_plain(d);
        assert(!ps[ps.len() - 1].contains('&'));
        let j = seek(last, '=', 0);
        lemma_seek(last, '=', 0);
        let row = query_row(last);
        assert forall|k: int| 0 <= k < row.name.len() implies row.name[k] != '=' && row.name[k]
            != '&' by {
            assert(row.name[k] == last[k]);
            assert(last.contains(last[k]));
        }
        assert forall|k: int| 0 <= k < row.value.len() implies row.value[k] != '&' by {
            assert(row.value[k] == last[j + 1 + k]);
            assert(last.contains(last[j + 1 + k]));
        }
        assert(is_plain_row(row));
        let rows = query_rows(ps);
        assert forall|i: int| 0 <= i < rows.len() implies is_plain_row(#[trigger] rows[i]) by {
            if i < query_rows(d).len() {
                assert(rows[i] == query_rows(d)[i]);
            }
        }
    }
}

proof fn lemma_parts_of_sent(rows: Seq<KvView>)
    ensures
        query_parts(sent_rows(rows)) == query_parts(rows),
    decreases rows.len(),
{
    if rows.len() > 0 {
        let d = rows.drop_last();
        let row = rows.last();
        lemma_parts_of_sent(d);
        if in_query(row) {
            let kept = kv_row(row.name, row.value);
            assert(sent_rows(d).push(kept).drop_last() =~= sent_rows(d));
        }
    }
}

/// An API key in the query comes last in the URL, after all that the request has there already.
pub proof fn law_key_in_query(spec: HttpSpecView, plain: HttpSpecView)
    requires
        plain.auth.kind is NoAuth,
        plain == (HttpSpecView { auth: plain.auth, ..spec }),
        spec.auth.kind is Apikey,
        match spec.auth.apikey {
            Some(k) => k.key.len() > 0 && k.place is Query && (!is_blank(k.key) || !is_blank(
                k.value,
            )),
            None => false,
        },
        forall|i: int|
            0 <= i < spec.query.len() && in_query(spec.query[i]) ==> is_plain_row(
                #[trigger] spec.query[i],
            ),
    ensures
        built(spec).headers == built(plain).headers,
        match spec.auth.apikey {
            Some(k) => built(spec).url == built(plain).url + (if built(plain).url.contains('?') {
                "&"@
            } else {
                "?"@
            }) + k.key + "="@ + k.value,
            None => false,
        },
{
    let k = spec.auth.apikey->0;
    let u = trim(spec.url);
    let (base, in_url) = split_query(u);
    let rows = in_url + spec.query;
    lemma_seek(u, '?', 0);
    let j = seek(u, '?', 0);
    assert(base =~= u.take(j));
    assert forall|m: int| 0 <= m < base.len() implies (#[trigger] base[m]) != '?' by {
        assert(base[m] == u[m]);
    }
    if j < u.len() {
        law_joined_split(u.skip(j + 1), '&');
        lemma_rows_plain(split(u.skip(j + 1), '&'));
    }
    assert forall|i: int| 0 <= i < rows.len() && in_query(rows[i]) implies is_plain_row(
        #[trigger] rows[i],
    ) by {
        if i < in_url.len() {
            assert(rows[i] == in_url[i]);
        } else {
            assert(rows[i] == spec.query[i - in_url.len()]);
        }
    }
    law_query_read_back(base, rows);
    lemma_seek_is(base, '?', 0, base.len() as int);
    assert(base.take(base.len() as int) =~= base);
    let before = merge_query(base, rows);
    let sent = sent_rows(rows);
    assert(split_query(before) == (base, sent));
    lemma_parts_of_sent(rows);
    let row = kv_row(k.key, k.value);
    lemma_one_more_pair(base, sent, row);
    assert(merge_query(base, sent) == before);
    assert(merge_query(before, sent.push(row)) == merge_query(base, sent.push(row))) by {
        if query_parts(rows).len() > 0 {
            reveal_strlit("?");
            assert forall|m: int| 0 <= m < base.len() implies before[m] != '?' by {
                assert(before[m] == base[m]);
            }
            assert(before[base.len() as int] == '?');
            lemma_seek_is(before, '?', 0, base.len() as int);
            assert(before.take(base.len() as int) =~= base);
        }
    }
}

/// The content type that each kind of body has by itself.
pub proof fn law_default_types(t: BodyType)
    ensures
        t is Json ==> default_type(t) == Some("application/json; charset=utf-8"@),
        t is Xml ==> default_type(t) == Some("application/xml; charset=utf-8"@),
        t is Text ==> default_type(t) == Some("text/plain; charset=utf-8"@),
        t is FormUrlencoded ==> default_type(t) == Some("application/x-www-form-urlencoded"@),
        t is NoBody || t is FormData || t is Binary ==> default_type(t) is None,
{
}

/// The content type that goes with each extension that is known, and with any other.
pub proof fn law_types_of_files(ext: Seq<char>)
    ensures
        ext == "json"@ ==> type_of_extension(ext) == "application/json"@,
        ext == "xml"@ ==> type_of_extension(ext) == "application/xml"@,
        ext == "txt"@ ==> type_of_extension(ext) == "text/plain"@,
        ext == "csv"@ ==> type_of_extension(ext) == "text/csv"@,
        ext == "html"@ ==> type_of_extension(ext) == "text/html"@,
        ext == "htm"@ ==> type_of_extension(ext) == "text/html"@,
        ext == "css"@ ==> type_of_extension(ext) == "text/css"@,
        ext == "js"@ ==> type_of_extension(ext) == "text/javascript"@,
        ext == "md"@ ==> type_of_extension(ext) == "text/markdown"@,
        ext == "pdf"@ ==> type_of_extension(ext) == "application/pdf"@,
        ext == "zip"@ ==> type_of_extension(ext) == "application/zip"@,
        ext == "gz"@ ==> type_of_extension(ext) == "application/gzip"@,
        ext == "tar"@ ==> type_of_extension(ext) == "application/x-tar"@,
        ext == "png"@ ==> type_of_extension(ext) == "image/png"@,
        ext == "jpg"@ ==> type_of_extension(ext) == "image/jpeg"@,
        ext == "jpeg"@ ==> type_of_extension(ext) == "image/jpeg"@,
        ext == "gif"@ ==> type_of_extension(ext) == "image/gif"@,
        ext == "webp"@ ==> type_of_extension(ext) == "image/webp"@,
        ext == "svg"@ ==> type_of_extension(ext) == "image/svg+xml"@,
        ext == "bmp"@ ==> type_of_extension(ext) == "image/bmp"@,
        ext == "ico"@ ==> type_of_extension(ext) == "image/x-icon"@,
        ext == "mp3"@ ==> type_of_extension(ext) == "audio/mpeg"@,
        ext == "wav"@ ==> type_of_extension(ext) == "audio/wav"@,
        ext == "mp4"@ ==> type_of_extension(ext) == "video/mp4"@,
        ext == "mov"@ ==> type_of_extension(ext) == "video/quicktime"@,
        ext == "webm"@ ==> type_of_extension(ext) == "video/webm"@,
        ext == "doc"@ ==> type_of_extension(ext) == "application/msword"@,
        ext == "docx"@ ==> type_of_extension(ext) == "application/vnd.openxmlformats-officedocument.wordprocessingml.document"@,
        ext == "xls"@ ==> type_of_extension(ext) == "application/vnd.ms-excel"@,
        ext == "xlsx"@ ==> type_of_extension(ext) == "application/vnd.openxmlformats-officedocument.spreadsheetml.sheet"@,
        ext == "ppt"@ ==> type_of_extension(ext) == "application/vnd.ms-powerpoint"@,
        ext == "pptx"@ ==> type_of_extension(ext) == "application/vnd.openxmlformats-officedocument.presentationml.presentation"@,
        !known_extension(ext) ==> type_of_extension(ext) == "application/octet-stream"@,
{
    reveal_strlit("json");
    reveal_strlit("xml");
    reveal_strlit("txt");
    reveal_strlit("csv");
    reveal_strlit("html");
    reveal_strlit("htm");
    reveal_strlit("css");
    reveal_strlit("js");
    reveal_strlit("md");
    reveal_strlit("pdf");
    reveal_strlit("zip");
    reveal_strlit("gz");
    reveal_strlit("tar");
    reveal_strlit("png");
    reveal_strlit("jpg");
    reveal_strlit("jpeg");
    reveal_strlit("gif");
    reveal_strlit("webp");
    reveal_strlit("svg");
    reveal_strlit("bmp");
    reveal_strlit("ico");
    reveal_strlit("mp3");
    reveal_strlit("wav");
    reveal_strlit("mp4");
    reveal_strlit("mov");
    reveal_strlit("webm");
    reveal_strlit("doc");
    reveal_strlit("docx");
    reveal_strlit("xls");
    reveal_strlit("xlsx");
    reveal_strlit("ppt");
    reveal_strlit("pptx");
    assert("json"@.len() == 4 && "json"@[0] == 'j' && "json"@[1] == 's' && "json"@[2] == 'o' && "json"@[3] == 'n');
    assert("xml"@.len() == 3 && "xml"@[0] == 'x' && "xml"@[1] == 'm' && "xml"@[2] == 'l');
    assert("txt"@.len() == 3 && "txt"@[0] == 't' && "txt"@[1] == 'x' && "txt"@[2] == 't');
    assert("csv"@.len() == 3 && "csv"@[0] == 'c' && "csv"@[1] == 's' && "csv"@[2] == 'v');
    assert("html"@.len() == 4 && "html"@[0] == 'h' && "html"@[1] == 't' && "html"@[2] == 'm' && "html"@[3] == 'l');
    assert("htm"@.len() == 3 && "htm"@[0] == 'h' && "htm"@[1] == 't' && "htm"@[2] == 'm');
    assert("css"@.len() == 3 && "css"@[0] == 'c' && "css"@[1] == 's' && "css"@[2] == 's');
    assert("js"@.len() == 2 && "js"@[0] == 'j' && "js"@[1] == 's');
    assert("md"@.len() == 2 && "md"@[0] == 'm' && "md"@[1] == 'd');
    assert("pdf"@.len() == 3 && "pdf"@[0] == 'p' && "pdf"@[1] == 'd' && "pdf"@[2] == 'f');
    assert("zip"@.len() == 3 && "zip"@[0] == 'z' && "zip"@[1] == 'i' && "zip"@[2] == 'p');
    assert("gz"@.len() == 2 && "gz"@[0] == 'g' && "gz"@[1] == 'z');
    assert("tar"@.len() == 3 && "tar"@[0] == 't' && "tar"@[1] == 'a' && "tar"@[2] == 'r');
    assert("png"@.len() == 3 && "png"@[0] == 'p' && "png"@[1] == 'n' && "png"@[2] == 'g');
    assert("jpg"@.len() == 3 && "jpg"@[0] == 'j' && "jpg"@[1] == 'p' && "jpg"@[2] == 'g');
    assert("jpeg"@.len() == 4 && "jpeg"@[0] == 'j' && "jpeg"@[1] == 'p' && "jpeg"@[2] == 'e' && "jpeg"@[3] == 'g');
    assert("gif"@.len() == 3 && "gif"@[0] == 'g' && "gif"@[1] == 'i' && "gif"@[2] == 'f');
    assert("webp"@.len() == 4 && "webp"@[0] == 'w' && "webp"@[1] == 'e' && "webp"@[2] == 'b' && "webp"@[3] == 'p');
    assert("svg"@.len() == 3 && "svg"@[0] == 's' && "svg"@[1] == 'v' && "svg"@[2] == 'g');
    assert("bmp"@.len() == 3 && "bmp"@[0] == 'b' && "bmp"@[1] == 'm' && "bmp"@[2] == 'p');
    assert("ico"@.len() == 3 && "ico"@[0] == 'i' && "ico"@[1] == 'c' && "ico"@[2] == 'o');
    assert("mp3"@.len() == 3 && "mp3"@[0] == 'm' && "mp3"@[1] == 'p' && "mp3"@[2] == '3');
    assert("wav"@.len() == 3 && "wav"@[0] == 'w' && "wav"@[1] == 'a' && "wav"@[2] == 'v');
    assert("mp4"@.len() == 3 && "mp4"@[0] == 'm' && "mp4"@[1] == 'p' && "mp4"@[2] == '4');
    assert("mov"@.len() == 3 && "mov"@[0] == 'm' && "mov"@[1] == 'o' && "mov"@[2] == 'v');
    assert("webm"@.len() == 4 && "webm"@[0] == 'w' && "webm"@[1] == 'e' && "webm"@[2] == 'b' && "webm"@[3] == 'm');
    assert("doc"@.len() == 3 && "doc"@[0] == 'd' && "doc"@[1] == 'o' && "doc"@[2] == 'c');
    assert("docx"@.len() == 4 && "docx"@[0] == 'd' && "docx"@[1] == 'o' && "docx"@[2] == 'c' && "docx"@[3] == 'x');
    assert("xls"@.len() == 3 && "xls"@[0] == 'x' && "xls"@[1] == 'l' && "xls"@[2] == 's');
    assert("xlsx"@.len() == 4 && "xlsx"@[0] == 'x' && "xlsx"@[1] == 'l' && "xlsx"@[2] == 's' && "xlsx"@[3] == 'x');
    assert("ppt"@.len() == 3 && "ppt"@[0] == 'p' && "ppt"@[1] == 'p' && "ppt"@[2] == 't');
    assert("pptx"@.len() == 4 && "pptx"@[0] == 'p' && "pptx"@[1] == 'p' && "pptx"@[2] == 't' && "pptx"@[3] == 'x');
}

/// Whether an extension is one whose content type is known.
pub open spec fn known_extension(ext: Seq<char>) -> bool {
    ||| ext == "json"@
    ||| ext == "xml"@
    ||| ext == "txt"@
    ||| ext == "csv"@
    ||| ext == "html"@
    ||| ext == "htm"@
    ||| ext == "css"@
    ||| ext == "js"@
    ||| ext == "md"@
    ||| ext == "pdf"@
    ||| ext == "zip"@
    ||| ext == "gz"@
    ||| ext == "tar"@
    ||| ext == "png"@
    ||| ext == "jpg"@
    ||| ext == "jpeg"@
    ||| ext == "gif"@
    ||| ext == "webp"@
    ||| ext == "svg"@
    ||| ext == "bmp"@
    ||| ext == "ico"@
    ||| ext == "mp3"@
    ||| ext == "wav"@
    ||| ext == "mp4"@
    ||| ext == "mov"@
    ||| ext == "webm"@
    ||| ext == "doc"@
    ||| ext == "docx"@
    ||| ext == "xls"@
    ||| ext == "xlsx"@
    ||| ext == "ppt"@
    ||| ext == "pptx"@
}

/// The extension of a file is what follows its last dot, in lower case, if it is letters and
/// digits; a file without one has none that is known.
pub proof fn law_extension_of_file(stem: Seq<char>, ext: Seq<char>)
    requires
        ext.len() > 0,
        forall|i: int| 0 <= i < ext.len() ==> is_alnum(#[trigger] ext[i]),
        stem.len() > 0 ==> !is_white(stem[0]),
    ensures
        extension(stem + seq!['.'] + ext) == lower(ext),
        !stem.contains('.') && (stem.len() > 0 ==> !is_white(stem.last())) ==> extension(stem).len()
            == 0,
{
    let p = stem + seq!['.'] + ext;
    let j = stem.len() as int + 1;
    assert(p.last() == ext[ext.len() - 1]);
    assert(trim(p) == p);
    assert forall|k: int| j <= k < p.len() implies (#[trigger] p[k]) != '.' by {
        assert(p[k] == ext[k - j]);
        assert(is_alnum(ext[k - j]));
    }
    lemma_after_dot(p, j);
    assert(p.skip(j) =~= ext);
    assert(is_alnum(ext[0]) && is_alnum(ext[ext.len() - 1]));
    assert(trim(ext) == ext);
    let e = lower(ext);
    assert forall|i: int| 0 <= i < e.len() implies is_alnum(#[trigger] e[i]) by {
        assert(is_alnum(ext[i]));
    }
    if !stem.contains('.') && (stem.len() > 0 ==> !is_white(stem.last())) {
        assert(trim(stem) == stem);
        assert forall|k: int| 0 <= k < stem.len() implies (#[trigger] stem[k]) != '.' by {
            assert(stem.contains(stem[k]));
        }
        lemma_after_dot(stem, 0);
    }
}

/// The name of a file is the last part of its path.
pub proof fn law_name_of_path(dir: Seq<char>, name: Seq<char>)
    requires
        name.len() > 0,
        forall|i: int| 0 <= i < name.len() ==> !is_slash(#[trigger] name[i]),
        !is_white(name.last()),
        !is_white(name[0]),
        dir.len() > 0 ==> !is_white(dir[0]),
    ensures
        name_of_path(dir + seq!['/'] + name) == name,
        name_of_path(name) == name,
{
    let p = dir + seq!['/'] + name;
    assert(p.last() == name[name.len() - 1]);
    assert(trim(p) == p);
    assert(trim(name) == name);
    assert(!is_slash(name[name.len() - 1]));
    law_last_segment(dir, name);
}

} // verus!
