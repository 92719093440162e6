//! Uploaded files: the name a file is stored under, where it goes, the
//! address it is served at, and what an upload request is answered with.

use crate::response::{error_response, error_view, Body, BodyView, Response, ResponseView};
use crate::response::{BAD_REQUEST, INTERNAL_SERVER_ERROR, OK};
use crate::text::chars_of;
use vstd::prelude::*;

verus! {

/// Position of the last `.` in `name`, or -1 where it has none.
pub open spec fn last_dot(name: Seq<char>) -> int
    decreases name.len(),
{
    if name.len() == 0 {
        -1
    } else if name.last() == '.' {
        name.len() - 1
    } else {
        last_dot(name.drop_last())
    }
}

/// The extension of `name`: its text from the last `.` on, that `.`
/// included; empty where `name` has no `.`.
pub open spec fn extension_of(name: Seq<char>) -> Seq<char> {
    let dot = last_dot(name);
    if dot < 0 {
        Seq::empty()
    } else {
        name.subrange(dot, name.len() as int)
    }
}

/// The name a client gave, or `unknown` where it gave none.
pub open spec fn name_or_unknown(given: Option<Seq<char>>) -> Seq<char> {
    match given {
        Some(name) => name,
        None => "unknown"@,
    }
}

/// A character that no stored name holds: one of `/ ? < > \ : * | "`, or
/// a control character of the ranges U+0000..U+001F and U+0080..U+009F.
pub open spec fn is_removed(c: char) -> bool {
    let n = c as u32;
    c == '/' || c == '?' || c == '<' || c == '>' || c == '\\' || c == ':' || c == '*' || c == '|'
        || c == '"' || n <= 0x1f || (0x80 <= n <= 0x9f)
}

/// The test that a character passes where it is not one of `is_removed`.
pub open spec fn is_kept() -> spec_fn(char) -> bool {
    |c: char| !is_removed(c)
}

/// `s` is one or more `.` and nothing else.
pub open spec fn only_dots(s: Seq<char>) -> bool {
    s.len() > 0 && forall|i: int| 0 <= i < s.len() ==> s[i] == '.'
}

/// The number of bytes that `c` takes in UTF-8.
pub open spec fn utf8_width(c: char) -> int {
    let n = c as u32;
    if n < 0x80 {
        1
    } else if n < 0x800 {
        2
    } else if n < 0x10000 {
        3
    } else {
        4
    }
}

/// The number of bytes that `s` takes in UTF-8.
pub open spec fn utf8_len(s: Seq<char>) -> int
    decreases s.len(),
{
    if s.len() == 0 {
        0
    } else {
        utf8_width(s[0]) + utf8_len(s.drop_first())
    }
}

/// The longest start of `s` that takes no more than `budget` bytes in UTF-8.
pub open spec fn fitting_prefix(s: Seq<char>, budget: int) -> Seq<char>
    decreases s.len(),
{
    if s.len() == 0 || utf8_width(s[0]) > budget {
        Seq::empty()
    } else {
        seq![s[0]] + fitting_prefix(s.drop_first(), budget - utf8_width(s[0]))
    }
}

/// The most bytes that a stored name takes in UTF-8.
pub const MAX_NAME_BYTES: usize = 255;

/// `name` made safe to store: the characters of `is_removed` are taken out,
/// a name of nothing but `.` becomes empty, and what is left is cut to the
/// longest start of at most `MAX_NAME_BYTES` bytes.
pub open spec fn sanitized(name: Seq<char>) -> Seq<char> {
    let kept = name.filter(is_kept());
    if only_dots(kept) {
        Seq::empty()
    } else {
        fitting_prefix(kept, MAX_NAME_BYTES as int)
    }
}

/// A digit of lower-case hexadecimal.
pub open spec fn is_lower_hex(c: char) -> bool {
    let n = c as u32;
    (0x30 <= n <= 0x39) || (0x61 <= n <= 0x66)
}

/// The text of a random identifier: 32 lower-case hexadecimal digits in
/// groups of 8, 4, 4, 4 and 12 with `-` between them, the third group
/// starting with `4` and the fourth with `8`, `9`, `a` or `b`.
pub open spec fn is_file_id(id: Seq<char>) -> bool {
    &&& id.len() == 36
    &&& forall|i: int|
        0 <= i < 36 ==> if i == 8 || i == 13 || i == 18 || i == 23 {
            #[trigger] id[i] == '-'
        } else {
            is_lower_hex(id[i])
        }
    &&& id[14] == '4'
    &&& (id[19] == '8' || id[19] == '9' || id[19] == 'a' || id[19] == 'b')
}

/// The name under which a file is stored: the identifier drawn for it, then
/// the extension of the name that the client gave, made safe to store.
pub open spec fn stored_name_of(id: Seq<char>, given: Option<Seq<char>>) -> Seq<char> {
    sanitized(id + extension_of(name_or_unknown(given)))
}

/// Where the file stored as `name` goes, under `directory`.
pub open spec fn path_of(directory: Seq<char>, name: Seq<char>) -> Seq<char> {
    directory + "/"@ + name
}

/// The address at which the file stored as `name` is served, under `base`.
pub open spec fn url_of(base: Seq<char>, name: Seq<char>) -> Seq<char> {
    base + "/uploads/"@ + name
}

/// `last_dot(name)` is the one place that holds a `.` with none after it.
pub proof fn lemma_last_dot(name: Seq<char>, dot: int)
    requires
        -1 <= dot < name.len(),
        dot >= 0 ==> name[dot] == '.',
        forall|i: int| dot < i < name.len() ==> name[i] != '.',
    ensures
        last_dot(name) == dot,
    decreases name.len(),
{
    if name.len() > 0 && dot < name.len() - 1 {
        let rest = name.drop_last();
        assert(name.last() != '.');
        assert forall|i: int| dot < i < rest.len() implies rest[i] != '.' by {
            assert(rest[i] == name[i]);
        }
        lemma_last_dot(rest, dot);
    }
}

/// A text takes at least one byte for each character.
pub proof fn lemma_utf8_len_bounds(s: Seq<char>)
    ensures
        s.len() <= utf8_len(s) <= 4 * s.len(),
    decreases s.len(),
{
    if s.len() > 0 {
        lemma_utf8_len_bounds(s.drop_first());
    }
}

/// The bytes of two texts in a row are the bytes of each, added up.
pub proof fn lemma_utf8_len_add(a: Seq<char>, b: Seq<char>)
    ensures
        utf8_len(a + b) == utf8_len(a) + utf8_len(b),
    decreases a.len(),
{
    if a.len() == 0 {
        assert(a + b =~= b);
    } else {
        assert((a + b).drop_first() =~= a.drop_first() + b);
        lemma_utf8_len_add(a.drop_first(), b);
    }
}

/// What is cut to a budget is a start of the text that fits the budget, and
/// the character after it, if there is one, no longer fits.
pub proof fn lemma_fitting_prefix(s: Seq<char>, budget: int)
    requires
        budget >= 0,
    ensures
        fitting_prefix(s, budget).len() <= s.len(),
        fitting_prefix(s, budget) == s.take(fitting_prefix(s, budget).len() as int),
        utf8_len(fitting_prefix(s, budget)) <= budget,
        fitting_prefix(s, budget).len() < s.len() ==> utf8_len(fitting_prefix(s, budget))
            + utf8_width(s[fitting_prefix(s, budget).len() as int]) > budget,
    decreases s.len(),
{
    let cut = fitting_prefix(s, budget);
    if s.len() == 0 || utf8_width(s[0]) > budget {
        assert(cut =~= s.take(0));
    } else {
        let rest = s.drop_first();
        let left = budget - utf8_width(s[0]);
        lemma_fitting_prefix(rest, left);
        let tail = fitting_prefix(rest, left);
        assert(cut =~= seq![s[0]] + tail);
        assert(cut.drop_first() =~= tail);
        assert(cut =~= s.take(cut.len() as int));
        if cut.len() < s.len() {
            assert(s[cut.len() as int] == rest[tail.len() as int]);
        }
    }
}

/// A text that fits the budget is not cut.
pub proof fn lemma_fitting_prefix_of_short(s: Seq<char>, budget: int)
    requires
        utf8_len(s) <= budget,
    ensures
        fitting_prefix(s, budget) == s,
    decreases s.len(),
{
    if s.len() > 0 {
        lemma_utf8_len_bounds(s.drop_first());
        lemma_fitting_prefix_of_short(s.drop_first(), budget - utf8_width(s[0]));
        assert(seq![s[0]] + s.drop_first() =~= s);
    } else {
        assert(fitting_prefix(s, budget) =~= s);
    }
}

/// Taking out the removed characters leaves a text without them as it is.
pub proof fn lemma_filter_keeps_plain(s: Seq<char>)
    requires
        forall|i: int| 0 <= i < s.len() ==> !is_removed(s[i]),
    ensures
        s.filter(is_kept()) == s,
    decreases s.len(),
{
    reveal(Seq::filter);
    if s.len() > 0 {
        lemma_filter_keeps_plain(s.drop_last());
        assert(s.drop_last().push(s.last()) =~= s);
    }
}

/// A stored name holds none of the removed characters, so no path
/// separator; it takes at most `MAX_NAME_BYTES` bytes; and it is neither
/// `.` nor `..`.
pub proof fn theorem_stored_names_are_safe(name: Seq<char>)
    ensures
        forall|i: int| 0 <= i < sanitized(name).len() ==> !is_removed(#[trigger] sanitized(name)[i]),
        utf8_len(sanitized(name)) <= MAX_NAME_BYTES,
        sanitized(name) != seq!['.'],
        sanitized(name) != seq!['.', '.'],
{
    let kept = name.filter(is_kept());
    let clean = sanitized(name);
    assert forall|i: int| 0 <= i < kept.len() implies !is_removed(#[trigger] kept[i]) by {
        name.lemma_filter_pred(is_kept(), i);
    }
    if only_dots(kept) {
        assert(clean.len() == 0);
    } else {
        lemma_fitting_prefix(kept, MAX_NAME_BYTES as int);
        assert forall|i: int| 0 <= i < clean.len() implies !is_removed(#[trigger] clean[i]) by {
            assert(clean[i] == kept[i]);
        }
        if clean == seq!['.'] || clean == seq!['.', '.'] {
            // so short a name was not cut: it is all that was kept
            lemma_utf8_len_bounds(clean);
            assert(clean.len() == kept.len());
            assert(clean =~= kept);
            assert(only_dots(kept));
        }
    }
}

/// A name without removed characters that is not made of `.` alone and
/// fits in `MAX_NAME_BYTES` bytes is stored as it is.
pub proof fn theorem_plain_name_is_kept(name: Seq<char>)
    requires
        forall|i: int| 0 <= i < name.len() ==> !is_removed(name[i]),
        !only_dots(name),
        utf8_len(name) <= MAX_NAME_BYTES,
    ensures
        sanitized(name) == name,
{
    lemma_filter_keeps_plain(name);
    lemma_fitting_prefix_of_short(name, MAX_NAME_BYTES as int);
}

/// An identifier is plain text of 36 bytes.
pub proof fn lemma_file_id_is_plain(id: Seq<char>)
    requires
        is_file_id(id),
    ensures
        forall|i: int| 0 <= i < id.len() ==> !is_removed(id[i]) && utf8_width(id[i]) == 1 && id[i]
            != '.',
        utf8_len(id) == 36,
{
    assert forall|i: int| 0 <= i < id.len() implies !is_removed(id[i]) && utf8_width(id[i]) == 1
        && id[i] != '.' by {
        if i == 8 || i == 13 || i == 18 || i == 23 {
            assert(id[i] == '-');
        } else {
            assert(is_lower_hex(id[i]));
        }
    }
    lemma_single_bytes(id);
}

/// A text of one-byte characters takes as many bytes as it has characters.
proof fn lemma_single_bytes(s: Seq<char>)
    requires
        forall|i: int| 0 <= i < s.len() ==> utf8_width(s[i]) == 1,
    ensures
        utf8_len(s) == s.len(),
    decreases s.len(),
{
    if s.len() > 0 {
        let rest = s.drop_first();
        assert forall|i: int| 0 <= i < rest.len() implies utf8_width(rest[i]) == 1 by {
            assert(rest[i] == s[i + 1]);
        }
        lemma_single_bytes(rest);
    }
}

/// Cutting a text that begins with `head` leaves `head` whole where `head`
/// fits the budget, and cuts what follows to what is left of the budget.
proof fn lemma_fitting_prefix_add(head: Seq<char>, tail: Seq<char>, budget: int)
    requires
        utf8_len(head) <= budget,
    ensures
        fitting_prefix(head + tail, budget) == head + fitting_prefix(
            tail,
            budget - utf8_len(head),
        ),
    decreases head.len(),
{
    if head.len() == 0 {
        assert(head + tail =~= tail);
        assert(head + fitting_prefix(tail, budget) =~= fitting_prefix(tail, budget));
    } else {
        let rest = head.drop_first();
        lemma_utf8_len_bounds(rest);
        assert((head + tail).drop_first() =~= rest + tail);
        lemma_fitting_prefix_add(rest, tail, budget - utf8_width(head[0]));
        assert(seq![head[0]] + (rest + fitting_prefix(tail, budget - utf8_len(head))) =~= head
            + fitting_prefix(tail, budget - utf8_len(head)));
    }
}

/// The name stored for an identifier begins with that identifier, so two
/// files that drew different identifiers are stored under different names,
/// whatever their clients called them.
pub proof fn theorem_stored_name_begins_with_id(id: Seq<char>, given: Option<Seq<char>>)
    requires
        is_file_id(id),
    ensures
        stored_name_of(id, given).len() >= 36,
        stored_name_of(id, given).take(36) == id,
{
    let extension = extension_of(name_or_unknown(given));
    let kept = (id + extension).filter(is_kept());
    let rest = extension.filter(is_kept());
    lemma_file_id_is_plain(id);
    lemma_filter_keeps_plain(id);
    Seq::filter_distributes_over_add(id, extension, is_kept());
    assert(kept == id + rest);
    assert(!only_dots(kept)) by {
        assert(kept[0] == id[0]);
    }
    lemma_fitting_prefix_add(id, rest, MAX_NAME_BYTES as int);
    let cut = fitting_prefix(rest, MAX_NAME_BYTES - 36);
    assert(stored_name_of(id, given) == id + cut);
    assert((id + cut).take(36) =~= id);
}

/// Files that drew different identifiers are stored under different names.
pub proof fn theorem_distinct_ids_give_distinct_names(
    id_a: Seq<char>,
    given_a: Option<Seq<char>>,
    id_b: Seq<char>,
    given_b: Option<Seq<char>>,
)
    requires
        is_file_id(id_a),
        is_file_id(id_b),
        id_a != id_b,
    ensures
        stored_name_of(id_a, given_a) != stored_name_of(id_b, given_b),
{
    theorem_stored_name_begins_with_id(id_a, given_a);
    theorem_stored_name_begins_with_id(id_b, given_b);
}

/// Where the extension of the client's name holds no removed character
/// and is not too long, the file is stored under its identifier followed by
/// that extension: a `photo.png` under a name that ends in `.png`.
pub proof fn theorem_plain_extension_is_kept(id: Seq<char>, given: Option<Seq<char>>)
    requires
        is_file_id(id),
        forall|i: int|
            0 <= i < extension_of(name_or_unknown(given)).len() ==> !is_removed(
                extension_of(name_or_unknown(given))[i],
            ),
        utf8_len(extension_of(name_or_unknown(given))) <= MAX_NAME_BYTES - 36,
    ensures
        stored_name_of(id, given) == id + extension_of(name_or_unknown(given)),
{
    let extension = extension_of(name_or_unknown(given));
    let name = id + extension;
    lemma_file_id_is_plain(id);
    lemma_utf8_len_add(id, extension);
    assert forall|i: int| 0 <= i < name.len() implies !is_removed(name[i]) by {
        if i < 36 {
            assert(name[i] == id[i]);
        } else {
            assert(name[i] == extension[i - 36]);
        }
    }
    assert(!only_dots(name)) by {
        assert(name[0] == id[0]);
    }
    theorem_plain_name_is_kept(name);
}

/// A name without a `.` has no extension, and neither has a part that came
/// without a name: such a file is stored under its identifier alone.
pub proof fn theorem_no_dot_no_extension(id: Seq<char>, given: Option<Seq<char>>)
    requires
        is_file_id(id),
        given matches Some(name) ==> forall|i: int| 0 <= i < name.len() ==> name[i] != '.',
    ensures
        extension_of(name_or_unknown(given)).len() == 0,
        stored_name_of(id, given) == id,
{
    let name = name_or_unknown(given);
    if given is None {
        reveal_strlit("unknown");
    }
    lemma_last_dot(name, -1);
    assert(extension_of(name) =~= Seq::<char>::empty());
    theorem_plain_extension_is_kept(id, given);
    assert(id + extension_of(name) =~= id);
}

/// The extension of `name`, borrowed from it.
pub fn file_extension<'a>(name: &'a str) -> (ext: &'a str)
    ensures
        ext@ == extension_of(name@),
{
    let chars = chars_of(name);
    let n: usize = chars.len();
    let mut end: usize = n;
    while end > 0 && chars[end - 1] != '.'
        invariant
            end <= n,
            n == chars@.len(),
            forall|i: int| end <= i < n ==> chars@[i] != '.',
        decreases end,
    {
        end -= 1;
    }
    proof {
        lemma_last_dot(chars@, end - 1);
    }
    if end == 0 {
        name.substring_char(0, 0)
    } else {
        name.substring_char(end - 1, n)
    }
}

/// Draws a random identifier and writes it as text: `uuid::Uuid::new_v4`,
/// formatted by the `Display` of `uuid::Uuid`, which writes the 16 bytes
/// as lower-case hexadecimal with hyphens. The contract claims the shape
/// `is_file_id` of every identifier that comes, the fixed version and
/// variant digits included, and nothing of which one comes; nothing here
/// proves it. The call panics where the operating system gives no random
/// bytes.
#[verifier::external_body]
fn fresh_id() -> (id: String)
    ensures
        is_file_id(id@),
{
    uuid::Uuid::new_v4().to_string()
}

/// Makes `name` safe to store: `sanitize_filename::sanitize_with_options`,
/// with the rules for Windows off, cutting on, and nothing put in place of
/// what is taken out, so that a name is stored alike on every platform.
/// With these options that function takes out every character of its two
/// classes, `/ ? < > \ : * | "` and the control characters, then empties a
/// name that is `.` one or more times, then cuts what is longer than 255
/// bytes at the last character that ends within them. The contract claims
/// that this is `sanitized` of the name; nothing here proves it.
#[verifier::external_body]
fn sanitize(name: &str) -> (clean: String)
    ensures
        clean@ == sanitized(name@),
{
    sanitize_filename::sanitize_with_options(
        name,
        sanitize_filename::Options { windows: false, truncate: true, replacement: "" },
    )
}

/// What the name of an upload's part stands for in contracts.
pub open spec fn name_view(given: Option<&str>) -> Option<Seq<char>> {
    match given {
        Some(name) => Some(name@),
        None => None,
    }
}

/// The name under which the file that drew `id` is stored, given the name
/// that the client sent with it, if any.
pub fn stored_name(id: &str, given: Option<&str>) -> (name: String)
    ensures
        name@ == stored_name_of(id@, name_view(given)),
{
    let client_name: &str = match given {
        Some(name) => name,
        None => "unknown",
    };
    let extension = file_extension(client_name);
    let mut unique = id.to_owned();
    unique.append(extension);
    sanitize(unique.as_str())
}

/// A file as it is stored and served.
#[derive(Debug, PartialEq, Eq)]
pub struct StoredFile {
    /// The name of the file in the upload directory.
    pub name: String,
    /// Where the bytes are to be moved.
    pub path: String,
    /// The address handed back to the client.
    pub url: String,
}

/// What a `StoredFile` stands for in contracts.
pub struct StoredFileView {
    pub name: Seq<char>,
    pub path: Seq<char>,
    pub url: Seq<char>,
}

impl View for StoredFile {
    type V = StoredFileView;

    open spec fn view(&self) -> StoredFileView {
        StoredFileView { name: self.name@, path: self.path@, url: self.url@ }
    }
}

/// The stored file of the part that drew `id`.
pub open spec fn stored_file_of(
    id: Seq<char>,
    given: Option<Seq<char>>,
    directory: Seq<char>,
    base: Seq<char>,
) -> StoredFileView {
    let name = stored_name_of(id, given);
    StoredFileView { name, path: path_of(directory, name), url: url_of(base, name) }
}

/// Names the file of the part that drew `id`, places it under `directory`
/// and gives it its address under `base`.
pub fn stored_file(id: &str, given: Option<&str>, directory: &str, base: &str) -> (file:
    StoredFile)
    ensures
        file@ == stored_file_of(id@, name_view(given), directory@, base@),
{
    let name = stored_name(id, given);
    let mut path = directory.to_owned();
    path.append("/");
    path.append(name.as_str());
    let mut url = base.to_owned();
    url.append("/uploads/");
    url.append(name.as_str());
    StoredFile { name, path, url }
}

/// Draws a fresh identifier for one part of an upload and names its file
/// with it. Which identifier was drawn is not known beforehand: the file is
/// `stored_file` of some identifier of the right shape.
pub fn next_stored_file(given: Option<&str>, directory: &str, base: &str) -> (file: StoredFile)
    ensures
        exists|id: Seq<char>|
            is_file_id(id) && file@ == #[trigger] stored_file_of(
                id,
                name_view(given),
                directory@,
                base@,
            ),
{
    let id = fresh_id();
    let file = stored_file(id.as_str(), given, directory, base);
    assert(file@ == stored_file_of(id@, name_view(given), directory@, base@));
    file
}

/// The addresses of the files of one upload request that are saved so far.
#[derive(Debug, PartialEq, Eq)]
pub struct Upload {
    pub urls: Vec<String>,
}

impl View for Upload {
    type V = Seq<Seq<char>>;

    open spec fn view(&self) -> Seq<Seq<char>> {
        self.urls.deep_view()
    }
}

/// The answer to an upload without a file.
pub open spec fn no_files_view() -> ResponseView {
    error_view(BAD_REQUEST as int, "No files uploaded"@)
}

/// The answer to an upload of which a file could not be saved, for the
/// reason `detail`.
pub open spec fn save_failed_view(detail: Seq<char>) -> ResponseView {
    error_view(INTERNAL_SERVER_ERROR as int, "Failed to save file: "@ + detail)
}

/// The answer to an upload whose files are all saved, at the addresses
/// `urls`: the one address of a single file, else the list in the order in
/// which the files came.
pub open spec fn uploaded_view(urls: Seq<Seq<char>>) -> ResponseView {
    if urls.len() == 1 {
        ResponseView { status: OK as int, body: BodyView::Url { url: urls[0] } }
    } else {
        ResponseView { status: OK as int, body: BodyView::Urls { urls } }
    }
}

impl Upload {
    /// Opens an upload of `file_count` files: with none there is nothing to
    /// save, and the request is answered at once.
    pub fn begin(file_count: usize) -> (r: Result<Upload, Response>)
        ensures
            match r {
                Ok(upload) => file_count > 0 && upload@ == Seq::<Seq<char>>::empty(),
                Err(response) => file_count == 0 && response@ == no_files_view(),
            },
    {
        if file_count == 0 {
            return Err(error_response(BAD_REQUEST, "No files uploaded"));
        }
        let upload = Upload { urls: Vec::new() };
        assert(upload@ =~= Seq::<Seq<char>>::empty());
        Ok(upload)
    }

    /// Records that `file` was saved: its address is the next one of the
    /// answer.
    pub fn saved(&mut self, file: &StoredFile)
        ensures
            final(self)@ == old(self)@.push(file.url@),
    {
        self.urls.push(file.url.clone());
        assert(self@ =~= old(self)@.push(file.url@));
    }

    /// Ends the upload at a file that could not be saved. The files saved
    /// before it stay where they are.
    pub fn failed(self, detail: &str) -> (r: Response)
        ensures
            r@ == save_failed_view(detail@),
    {
        let mut message = "Failed to save file: ".to_owned();
        message.append(detail);
        error_response(INTERNAL_SERVER_ERROR, message.as_str())
    }

    /// Ends the upload after its last file was saved.
    pub fn finish(self) -> (r: Response)
        ensures
            r@ == uploaded_view(self@),
    {
        let mut urls = self.urls;
        if urls.len() == 1 {
            let url = urls.remove(0);
            Response { status: OK, body: Body::Url { url } }
        } else {
            Response { status: OK, body: Body::Urls { urls } }
        }
    }
}

} // verus!
