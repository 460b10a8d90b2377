//! The viewer: which archive entries are pages and in what order, the open
//! viewer sessions, and what a page request is answered.
use vstd::prelude::*;

use crate::archive::{has_image_suffix, has_image_suffix_spec};
use crate::keyed::{KeyedList, entries_insert, has_key, key_position, keys_distinct};
use crate::outside::{base64_encode, base64_standard, padded_base64_len, uuid_v4_string};
use crate::text::{chars_of, ends_with, is_uuid_v4_text, seq_ends_with, sort_strings, sorted_seqs, string_views};

verus! {

/// The page entries of an archive listing, in any order: the entries whose
/// name ends with `.png`, `.jpg` or `.jpeg` (case-sensitive).
pub open spec fn page_entries(names: Seq<String>) -> Seq<String> {
    names.filter(|s: String| has_image_suffix_spec(s@))
}

/// The pages of an archive from its entry names: the image entries, sorted
/// by name.
pub fn image_entries(names: &Vec<String>) -> (res: Vec<String>)
    ensures
        sorted_seqs(string_views(res@)),
        res@.to_multiset() == page_entries(names@).to_multiset(),
{
    let mut images: Vec<String> = Vec::new();
    let n = names.len();
    let mut i: usize = 0;
    while i < n
        invariant
            n == names@.len(),
            i <= n,
            images@ == page_entries(names@.take(i as int)),
        decreases n - i,
    {
        proof {
            assert(names@.take(i + 1).drop_last() =~= names@.take(i as int));
            reveal_with_fuel(Seq::filter, 1);
        }
        if has_image_suffix(names[i].as_str()) {
            images.push(names[i].clone());
        }
        i = i + 1;
    }
    assert(names@.take(n as int) =~= names@);
    sort_strings(&images)
}

/// The media type answered for a page: PNG for a name ending with `.png`,
/// JPEG for any other.
pub open spec fn mime_for_spec(name: Seq<char>) -> Seq<char> {
    if seq_ends_with(name, seq!['.', 'p', 'n', 'g']) {
        "image/png"@
    } else {
        "image/jpeg"@
    }
}

/// The media type of a page, from its name.
pub fn mime_for(name: &str) -> (res: String)
    ensures
        res@ == mime_for_spec(name@),
{
    proof {
        reveal_strlit(".png");
        assert(".png"@ =~= seq!['.', 'p', 'n', 'g']);
    }
    let c = chars_of(name);
    if ends_with(&c, ".png") {
        String::from_str("image/png")
    } else {
        String::from_str("image/jpeg")
    }
}

/// A page as the viewer receives it: the image bytes in base64 and their
/// media type.
pub struct ImageData {
    data: String,
    mime: String,
}

impl ImageData {
    /// A page from its base64 text and media type.
    pub fn from_parts(data: String, mime: String) -> (res: Self)
        ensures
            res.data() == data@,
            res.mime() == mime@,
    {
        ImageData { data, mime }
    }

    /// The page of `name` whose bytes are already encoded as `encoded`.
    pub fn from_encoded(encoded: String, name: &str) -> (res: Self)
        ensures
            res.data() == encoded@,
            res.mime() == mime_for_spec(name@),
    {
        ImageData { data: encoded, mime: mime_for(name) }
    }

    /// The page of `name` with the bytes `bytes`, encoded in standard base64.
    pub fn encode(bytes: &[u8], name: &str) -> (res: Self)
        requires
            padded_base64_len(bytes@.len()) <= usize::MAX,
        ensures
            res.data() == base64_standard(bytes@),
            res.mime() == mime_for_spec(name@),
    {
        let encoded = base64_encode(bytes);
        ImageData::from_encoded(encoded, name)
    }

    /// The base64 text of the page.
    pub closed spec fn data(&self) -> Seq<char> {
        self.data@
    }

    /// The media type of the page.
    pub closed spec fn mime(&self) -> Seq<char> {
        self.mime@
    }

    /// The base64 text of the page.
    pub fn data_text(&self) -> (res: &String)
        ensures
            res@ == self.data(),
    {
        &self.data
    }

    /// The media type of the page.
    pub fn mime_text(&self) -> (res: &String)
        ensures
            res@ == self.mime(),
    {
        &self.mime
    }
}

/// The character of a decimal digit.
pub open spec fn digit_char(d: int) -> char {
    seq!['0', '1', '2', '3', '4', '5', '6', '7', '8', '9'][d]
}

/// The decimal notation of `n`, without leading zeros.
pub open spec fn decimal(n: nat) -> Seq<char>
    decreases n,
{
    if n < 10 {
        seq![digit_char(n as int)]
    } else {
        decimal(n / 10).push(digit_char((n % 10) as int))
    }
}

/// The value of a digit character.
pub open spec fn digit_value(c: char) -> int {
    c as int - '0' as int
}

/// The number a string of decimal digits denotes.
pub open spec fn decimal_value(s: Seq<char>) -> int
    decreases s.len(),
{
    if s.len() == 0 {
        0
    } else {
        decimal_value(s.drop_last()) * 10 + digit_value(s.last())
    }
}

/// The notation of a digit.
fn digit_str(d: usize) -> (res: &'static str)
    requires
        d < 10,
    ensures
        res@ == seq![digit_char(d as int)],
{
    proof {
        reveal_strlit("0");
        reveal_strlit("1");
        reveal_strlit("2");
        reveal_strlit("3");
        reveal_strlit("4");
        reveal_strlit("5");
        reveal_strlit("6");
        reveal_strlit("7");
        reveal_strlit("8");
        reveal_strlit("9");
    }
    let r = if d == 0 {
        "0"
    } else if d == 1 {
        "1"
    } else if d == 2 {
        "2"
    } else if d == 3 {
        "3"
    } else if d == 4 {
        "4"
    } else if d == 5 {
        "5"
    } else if d == 6 {
        "6"
    } else if d == 7 {
        "7"
    } else if d == 8 {
        "8"
    } else {
        "9"
    };
    assert(r@ =~= seq![digit_char(d as int)]);
    r
}

/// The decimal notation of `n` (what `format!("{}", n)` writes).
pub fn decimal_string(n: usize) -> (res: String)
    ensures
        res@ == decimal(n as nat),
    decreases n,
{
    if n < 10 {
        String::from_str(digit_str(n))
    } else {
        let mut res = decimal_string(n / 10);
        res.append(digit_str(n % 10));
        res
    }
}

/// Each digit character has the value of its digit.
proof fn lemma_digit_value(d: int)
    requires
        0 <= d < 10,
    ensures
        digit_value(digit_char(d)) == d,
{
    let t = seq!['0', '1', '2', '3', '4', '5', '6', '7', '8', '9'];
    assert(t[0] == '0' && t[1] == '1' && t[2] == '2' && t[3] == '3' && t[4] == '4');
    assert(t[5] == '5' && t[6] == '6' && t[7] == '7' && t[8] == '8' && t[9] == '9');
}

/// The decimal notation reads back as the number it was made from.
pub proof fn lemma_decimal_reads_back(n: nat)
    ensures
        decimal_value(decimal(n)) == n,
    decreases n,
{
    if n < 10 {
        lemma_digit_value(n as int);
        let s = decimal(n);
        assert(s.drop_last() =~= Seq::<char>::empty());
        assert(decimal_value(s) == decimal_value(s.drop_last()) * 10 + digit_value(s.last()));
        assert(s.last() == digit_char(n as int));
    } else {
        lemma_decimal_reads_back(n / 10);
        lemma_digit_value((n % 10) as int);
        let s = decimal(n);
        assert(s.drop_last() =~= decimal(n / 10));
        assert(s.last() == digit_char((n % 10) as int));
        assert(decimal_value(s) == decimal_value(s.drop_last()) * 10 + digit_value(s.last()));
        assert(decimal_value(s.drop_last()) == n / 10);
        assert((n / 10) * 10 + n % 10 == n);
    }
}

/// The page address a viewer window opens: `index.html/#/viewer?p={page_count}`.
pub fn viewer_url(page_count: usize) -> (res: String)
    ensures
        res@ == "index.html/#/viewer?p="@ + decimal(page_count as nat),
{
    let mut res = String::from_str("index.html/#/viewer?p=");
    let digits = decimal_string(page_count);
    res.append(digits.as_str());
    res
}

/// A fresh label for a viewer window: `viewer-` and a random UUID.
pub fn viewer_label() -> (res: String)
    ensures
        res@.len() == 43,
        res@.subrange(0, 7) == "viewer-"@,
        is_uuid_v4_text(res@.subrange(7, 43)),
{
    let id = uuid_v4_string();
    let mut res = String::from_str("viewer-");
    proof {
        reveal_strlit("viewer-");
    }
    res.append(id.as_str());
    assert(res@.subrange(0, 7) =~= "viewer-"@);
    assert(res@.subrange(7, 43) =~= id@);
    res
}

} // verus!

verus! {

/// An open session as a plain value: the window label and its pages.
pub type SessionView = (Seq<char>, Seq<Seq<char>>);

/// The pages of the session of `label`, if there is one.
pub open spec fn session_pages(s: Seq<SessionView>, label: Seq<char>) -> Option<Seq<Seq<char>>> {
    if has_key(s, label) {
        Some(s[key_position(s, label)].1)
    } else {
        None
    }
}

/// The page names of an open archive.
pub struct PageList {
    pub names: Vec<String>,
}

impl View for PageList {
    type V = Seq<Seq<char>>;

    open spec fn view(&self) -> Seq<Seq<char>> {
        string_views(self.names@)
    }
}

/// Why a page request was refused.
#[derive(Clone, Copy, Debug, PartialEq, Eq, Structural)]
pub enum ViewerError {
    /// The window has no open archive.
    NoZipLoaded,
    /// The archive has no page at the index.
    IndexOutOfRange,
}

impl ViewerError {
    /// The text the application answers with.
    pub open spec fn message_spec(self) -> Seq<char> {
        match self {
            ViewerError::NoZipLoaded => "No ZIP loaded"@,
            ViewerError::IndexOutOfRange => "Index out of range"@,
        }
    }

    /// The text the application answers with.
    pub fn message(&self) -> (res: String)
        ensures
            res@ == self.message_spec(),
    {
        match self {
            ViewerError::NoZipLoaded => String::from_str("No ZIP loaded"),
            ViewerError::IndexOutOfRange => String::from_str("Index out of range"),
        }
    }
}

/// What a page request is answered: the name of page `index` of the
/// session of `label`, or why there is none.
pub open spec fn page_answer(s: Seq<SessionView>, label: Seq<char>, index: int) -> Result<Seq<char>, ViewerError> {
    match session_pages(s, label) {
        None => Err(ViewerError::NoZipLoaded),
        Some(pages) => if 0 <= index < pages.len() {
            Ok(pages[index])
        } else {
            Err(ViewerError::IndexOutOfRange)
        },
    }
}

/// The archives open in viewer windows, by window label, with their pages.
pub struct ViewerSessions {
    sessions: KeyedList<PageList>,
}

impl View for ViewerSessions {
    type V = Seq<SessionView>;

    closed spec fn view(&self) -> Seq<SessionView> {
        self.sessions@
    }
}

impl ViewerSessions {
    /// No open session.
    pub fn new() -> (res: Self)
        ensures
            res@ == Seq::<SessionView>::empty(),
    {
        ViewerSessions { sessions: KeyedList::new() }
    }

    /// Opens `pages` in the window `label`, replacing what that window had
    /// open, and returns the number of pages.
    pub fn open(&mut self, label: String, pages: Vec<String>) -> (count: usize)
        ensures
            count == pages@.len(),
            final(self)@ == entries_insert(old(self)@, label@, string_views(pages@)),
            keys_distinct(final(self)@),
    {
        let count = pages.len();
        self.sessions.insert(label, PageList { names: pages });
        count
    }

    /// The name of page `index` of the window `label`.
    pub fn page_name(&self, label: &String, index: usize) -> (res: Result<String, ViewerError>)
        ensures
            match res {
                Ok(name) => page_answer(self@, label@, index as int) == Ok::<Seq<char>, ViewerError>(name@),
                Err(e) => page_answer(self@, label@, index as int) == Err::<Seq<char>, ViewerError>(e),
            },
    {
        match self.sessions.get(label) {
            None => Err(ViewerError::NoZipLoaded),
            Some(pages) => {
                if index < pages.names.len() {
                    Ok(pages.names[index].clone())
                } else {
                    Err(ViewerError::IndexOutOfRange)
                }
            },
        }
    }
}

} // verus!
