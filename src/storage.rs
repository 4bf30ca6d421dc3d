use crate::rotation::RotationAngle;
use crate::text::push_char;
use std::collections::HashMap;
use vstd::prelude::*;

verus! {

broadcast use vstd::std_specs::hash::group_hash_axioms;

/// The most recently opened files that are remembered.
pub const MAX_RECENT_FILES: usize = 10;

/// A vocabulary card: a term and its explanation.
pub struct FlashCard {
    pub id: String,
    pub term: String,
    pub definition: String,
    pub created_at: String,
}

/// A document opened recently.
pub struct RecentFile {
    pub path: String,
    pub name: String,
    pub display_name: String,
    pub last_opened: String,
}

/// The keys of the three answer services, each optional.
pub struct ApiKeys {
    pub gemini: Option<String>,
    pub chatgpt: Option<String>,
    pub claude: Option<String>,
}

/// The rotation chosen for each page of one document.
pub struct PageRotations {
    pub pdf_path: String,
    pub rotations: HashMap<usize, RotationAngle>,
    pub last_modified: String,
}

/// The page a reader was last at in one document.
pub struct ReadingBookmark {
    pub pdf_path: String,
    pub current_page: usize,
    pub total_pages: usize,
    pub last_read_time: String,
}

impl Default for ApiKeys {
    fn default() -> (r: ApiKeys)
        ensures
            r.gemini is None && r.chatgpt is None && r.claude is None,
    {
        ApiKeys { gemini: None, chatgpt: None, claude: None }
    }
}

impl FlashCard {
    /// An equal, independent copy.
    pub fn copy_of(&self) -> (r: FlashCard)
        ensures
            r == *self,
    {
        FlashCard {
            id: self.id.clone(),
            term: self.term.clone(),
            definition: self.definition.clone(),
            created_at: self.created_at.clone(),
        }
    }
}

impl RecentFile {
    /// An equal, independent copy.
    pub fn copy_of(&self) -> (r: RecentFile)
        ensures
            r == *self,
    {
        RecentFile {
            path: self.path.clone(),
            name: self.name.clone(),
            display_name: self.display_name.clone(),
            last_opened: self.last_opened.clone(),
        }
    }
}

impl ReadingBookmark {
    /// An equal, independent copy.
    pub fn copy_of(&self) -> (r: ReadingBookmark)
        ensures
            r == *self,
    {
        ReadingBookmark {
            pdf_path: self.pdf_path.clone(),
            current_page: self.current_page,
            total_pages: self.total_pages,
            last_read_time: self.last_read_time.clone(),
        }
    }
}

/// The cards whose id differs from `card_id`, in order.
pub open spec fn cards_without(cards: Seq<FlashCard>, card_id: Seq<char>) -> Seq<FlashCard> {
    cards.filter(|c: FlashCard| c.id@ != card_id)
}

/// Removes every card with the given id.
pub fn delete_flashcard(cards: Vec<FlashCard>, card_id: &str) -> (r: Vec<FlashCard>)
    ensures
        r@ == cards_without(cards@, card_id@),
{
    let id = String::from_str(card_id);
    let mut out: Vec<FlashCard> = Vec::new();
    let mut i: usize = 0;
    while i < cards.len()
        invariant
            id@ == card_id@,
            i <= cards@.len(),
            out@ == cards_without(cards@.take(i as int), card_id@),
        decreases cards@.len() - i,
    {
        proof {
            assert(cards@.take(i + 1).drop_last() =~= cards@.take(i as int));
            reveal(Seq::filter);
        }
        if cards[i].id != id {
            out.push(cards[i].copy_of());
        }
        i = i + 1;
    }
    proof {
        assert(cards@.take(i as int) =~= cards@);
    }
    out
}

/// The files other than `path`, in order.
pub open spec fn files_without(files: Seq<RecentFile>, path: Seq<char>) -> Seq<RecentFile> {
    files.filter(|f: RecentFile| f.path@ != path)
}

/// The list after opening `entry`: it moves to the front, any older entry
/// for the same path is dropped, and at most `MAX_RECENT_FILES` remain.
pub open spec fn recent_files_after(files: Seq<RecentFile>, entry: RecentFile) -> Seq<RecentFile> {
    let all = seq![entry] + files_without(files, entry.path@);
    if all.len() > MAX_RECENT_FILES {
        all.take(MAX_RECENT_FILES as int)
    } else {
        all
    }
}

/// Records that a file was opened at time `now`: the entry (named
/// `file_name`) moves to the front, and the list keeps its newest entries.
pub fn add_recent_file(files: Vec<RecentFile>, file_path: String, file_name: String, now: String) -> (r:
    Vec<RecentFile>)
    ensures
        r@ == recent_files_after(
            files@,
            RecentFile {
                path: file_path,
                name: file_name,
                display_name: file_name,
                last_opened: now,
            },
        ),
{
    let entry = RecentFile {
        path: file_path.clone(),
        name: file_name.clone(),
        display_name: file_name,
        last_opened: now,
    };
    let ghost e = entry;
    let mut out: Vec<RecentFile> = Vec::new();
    out.push(entry);
    let mut i: usize = 0;
    while i < files.len()
        invariant
            i <= files@.len(),
            e.path == file_path,
            out@ == seq![e] + files_without(files@.take(i as int), file_path@),
        decreases files@.len() - i,
    {
        proof {
            assert(files@.take(i + 1).drop_last() =~= files@.take(i as int));
            reveal(Seq::filter);
        }
        if files[i].path != file_path {
            let f = files[i].copy_of();
            proof {
                assert(seq![e] + files_without(files@.take(i + 1), file_path@) =~= out@.push(f));
            }
            out.push(f);
        }
        i = i + 1;
    }
    proof {
        assert(files@.take(i as int) =~= files@);
    }
    if out.len() > MAX_RECENT_FILES {
        out.truncate(MAX_RECENT_FILES);
    }
    out
}

/// The position of the first entry for `pdf_path`, if any.
pub open spec fn bookmark_index(list: Seq<ReadingBookmark>, pdf_path: Seq<char>) -> Option<int>
    decreases list.len(),
{
    if list.len() == 0 {
        None
    } else {
        match bookmark_index(list.drop_last(), pdf_path) {
            Some(i) => Some(i),
            None => if list.last().pdf_path@ == pdf_path {
                Some(list.len() - 1)
            } else {
                None
            },
        }
    }
}

proof fn lemma_bookmark_index(list: Seq<ReadingBookmark>, pdf_path: Seq<char>)
    ensures
        match bookmark_index(list, pdf_path) {
            Some(i) => 0 <= i < list.len() && list[i].pdf_path@ == pdf_path && forall|k: int|
                0 <= k < i ==> (#[trigger] list[k]).pdf_path@ != pdf_path,
            None => forall|k: int| 0 <= k < list.len() ==> (#[trigger] list[k]).pdf_path@ != pdf_path,
        },
    decreases list.len(),
{
    if list.len() > 0 {
        let d = list.drop_last();
        lemma_bookmark_index(d, pdf_path);
        assert forall|k: int| 0 <= k < d.len() implies #[trigger] list[k] == d[k] by {}
    }
}

/// The position of the first bookmark for a document.
fn find_bookmark_index(list: &Vec<ReadingBookmark>, pdf_path: &String) -> (r: Option<usize>)
    ensures
        r matches Some(i) ==> bookmark_index(list@, pdf_path@) == Some(i as int) && i < list@.len(),
        r is None ==> bookmark_index(list@, pdf_path@) is None,
{
    let mut i: usize = 0;
    while i < list.len()
        invariant
            i <= list@.len(),
            forall|k: int| 0 <= k < i ==> (#[trigger] list@[k]).pdf_path@ != pdf_path@,
        decreases list@.len() - i,
    {
        if list[i].pdf_path == *pdf_path {
            proof {
                lemma_bookmark_index(list@, pdf_path@);
            }
            return Some(i);
        }
        i = i + 1;
    }
    proof {
        lemma_bookmark_index(list@, pdf_path@);
    }
    None
}

/// The bookmark kept for a document, if any.
pub fn find_reading_bookmark(list: &Vec<ReadingBookmark>, pdf_path: &str) -> (r: Option<
    ReadingBookmark,
>)
    ensures
        match bookmark_index(list@, pdf_path@) {
            Some(i) => r == Some(list@[i]),
            None => r is None,
        },
{
    let path = String::from_str(pdf_path);
    match find_bookmark_index(list, &path) {
        Some(i) => Some(list[i].copy_of()),
        None => None,
    }
}

/// The list after saving `bookmark`: it replaces the first entry for its
/// document, or is appended.
pub open spec fn bookmarks_after_save(list: Seq<ReadingBookmark>, bookmark: ReadingBookmark) -> Seq<
    ReadingBookmark,
> {
    match bookmark_index(list, bookmark.pdf_path@) {
        Some(i) => list.update(i, bookmark),
        None => list.push(bookmark),
    }
}

/// Saves a bookmark: replaces the one for the same document, or appends it.
pub fn upsert_reading_bookmark(list: Vec<ReadingBookmark>, bookmark: ReadingBookmark) -> (r: Vec<
    ReadingBookmark,
>)
    ensures
        r@ == bookmarks_after_save(list@, bookmark),
{
    let mut list = list;
    match find_bookmark_index(&list, &bookmark.pdf_path) {
        Some(i) => {
            list.set(i, bookmark);
        },
        None => {
            list.push(bookmark);
        },
    }
    list
}

/// The bookmarks of documents other than `pdf_path`, in order.
pub open spec fn bookmarks_without(list: Seq<ReadingBookmark>, pdf_path: Seq<char>) -> Seq<
    ReadingBookmark,
> {
    list.filter(|b: ReadingBookmark| b.pdf_path@ != pdf_path)
}

/// Removes every bookmark of a document.
pub fn remove_reading_bookmark(list: Vec<ReadingBookmark>, pdf_path: &str) -> (r: Vec<
    ReadingBookmark,
>)
    ensures
        r@ == bookmarks_without(list@, pdf_path@),
{
    let path = String::from_str(pdf_path);
    let mut out: Vec<ReadingBookmark> = Vec::new();
    let mut i: usize = 0;
    while i < list.len()
        invariant
            path@ == pdf_path@,
            i <= list@.len(),
            out@ == bookmarks_without(list@.take(i as int), pdf_path@),
        decreases list@.len() - i,
    {
        proof {
            assert(list@.take(i + 1).drop_last() =~= list@.take(i as int));
            reveal(Seq::filter);
        }
        if list[i].pdf_path != path {
            out.push(list[i].copy_of());
        }
        i = i + 1;
    }
    proof {
        assert(list@.take(i as int) =~= list@);
    }
    out
}

/// Why a stored record could not be changed.
#[derive(Clone, Copy, Debug, PartialEq, Eq, Structural)]
pub enum StorageError {
    /// No card has the requested id.
    CardNotFound,
}

/// The text in lower case.
pub uninterp spec fn lower_of(s: Seq<char>) -> Seq<char>;

/// Relies on `str::to_lowercase`: the lowercase mapping of each character.
#[verifier::external_body]
fn lowercase(s: &str) -> (r: String)
    ensures
        r@ == lower_of(s@),
{
    s.to_lowercase()
}

/// The position of the first card whose term matches `term` ignoring case.
pub open spec fn term_index(cards: Seq<FlashCard>, term: Seq<char>) -> Option<int>
    decreases cards.len(),
{
    if cards.len() == 0 {
        None
    } else {
        match term_index(cards.drop_last(), term) {
            Some(i) => Some(i),
            None => if lower_of(cards.last().term@) == lower_of(term) {
                Some(cards.len() - 1)
            } else {
                None
            },
        }
    }
}

/// The position of the first card with id `id`.
pub open spec fn card_index(cards: Seq<FlashCard>, id: Seq<char>) -> Option<int>
    decreases cards.len(),
{
    if cards.len() == 0 {
        None
    } else {
        match card_index(cards.drop_last(), id) {
            Some(i) => Some(i),
            None => if cards.last().id@ == id {
                Some(cards.len() - 1)
            } else {
                None
            },
        }
    }
}

proof fn lemma_term_index(cards: Seq<FlashCard>, term: Seq<char>)
    ensures
        match term_index(cards, term) {
            Some(i) => 0 <= i < cards.len() && lower_of(cards[i].term@) == lower_of(term) && forall|k: int|
                0 <= k < i ==> lower_of((#[trigger] cards[k]).term@) != lower_of(term),
            None => forall|k: int|
                0 <= k < cards.len() ==> lower_of((#[trigger] cards[k]).term@) != lower_of(term),
        },
    decreases cards.len(),
{
    if cards.len() > 0 {
        let d = cards.drop_last();
        lemma_term_index(d, term);
        assert forall|k: int| 0 <= k < d.len() implies #[trigger] cards[k] == d[k] by {}
    }
}

proof fn lemma_card_index(cards: Seq<FlashCard>, id: Seq<char>)
    ensures
        match card_index(cards, id) {
            Some(i) => 0 <= i < cards.len() && cards[i].id@ == id && forall|k: int|
                0 <= k < i ==> (#[trigger] cards[k]).id@ != id,
            None => forall|k: int| 0 <= k < cards.len() ==> (#[trigger] cards[k]).id@ != id,
        },
    decreases cards.len(),
{
    if cards.len() > 0 {
        let d = cards.drop_last();
        lemma_card_index(d, id);
        assert forall|k: int| 0 <= k < d.len() implies #[trigger] cards[k] == d[k] by {}
    }
}

/// The decimal digit of `d` (below ten).
pub open spec fn digit_char(d: nat) -> char {
    if d == 0 {
        '0'
    } else if d == 1 {
        '1'
    } else if d == 2 {
        '2'
    } else if d == 3 {
        '3'
    } else if d == 4 {
        '4'
    } else if d == 5 {
        '5'
    } else if d == 6 {
        '6'
    } else if d == 7 {
        '7'
    } else if d == 8 {
        '8'
    } else {
        '9'
    }
}

/// The decimal digits of a natural number, without leading zeros.
pub open spec fn nat_decimal(n: nat) -> Seq<char>
    decreases n,
{
    if n < 10 {
        seq![digit_char(n)]
    } else {
        nat_decimal(n / 10).push(digit_char(n % 10))
    }
}

/// The decimal text of an integer, with a leading `-` when negative.
pub open spec fn int_decimal(n: int) -> Seq<char> {
    if n < 0 {
        seq!['-'] + nat_decimal((-n) as nat)
    } else {
        nat_decimal(n as nat)
    }
}

fn digit_of(d: u64) -> (c: char)
    requires
        d < 10,
    ensures
        c == digit_char(d as nat),
{
    match d {
        0 => '0',
        1 => '1',
        2 => '2',
        3 => '3',
        4 => '4',
        5 => '5',
        6 => '6',
        7 => '7',
        8 => '8',
        _ => '9',
    }
}

fn push_decimal(s: &mut String, n: u64)
    ensures
        final(s)@ == old(s)@ + nat_decimal(n as nat),
    decreases n,
{
    if n >= 10 {
        push_decimal(s, n / 10);
    }
    push_char(s, digit_of(n % 10));
    proof {
        if n >= 10 {
            assert(final(s)@ =~= old(s)@ + nat_decimal(n as nat));
        } else {
            assert(final(s)@ =~= old(s)@ + nat_decimal(n as nat));
        }
    }
}

/// The id prefix taken from a term: its first ten characters with spaces
/// turned to `-`, in lower case.
pub open spec fn id_prefix(term: Seq<char>) -> Seq<char> {
    let head = if term.len() > 10 {
        term.take(10)
    } else {
        term
    };
    lower_of(head.map_values(|c: char| if c == ' ' { '-' } else { c }))
}

/// The id of a new card: the creation time in milliseconds, `-`, and the
/// term's id prefix.
pub open spec fn flashcard_id(timestamp_millis: i64, term: Seq<char>) -> Seq<char> {
    int_decimal(timestamp_millis as int) + seq!['-'] + id_prefix(term)
}

fn make_flashcard_id(timestamp_millis: i64, term: &String) -> (r: String)
    ensures
        r@ == flashcard_id(timestamp_millis, term@),
{
    let mut id = String::new();
    if timestamp_millis < 0 {
        push_char(&mut id, '-');
        let m = (0i128 - timestamp_millis as i128) as u64;
        push_decimal(&mut id, m);
    } else {
        push_decimal(&mut id, timestamp_millis as u64);
    }
    push_char(&mut id, '-');
    let n = term.as_str().unicode_len();
    let take = if n > 10 {
        10
    } else {
        n
    };
    let ghost head = if term@.len() > 10 {
        term@.take(10)
    } else {
        term@
    };
    let mut prefix = String::new();
    let mut i: usize = 0;
    while i < take
        invariant
            take == head.len(),
            head.len() <= term@.len(),
            forall|k: int| 0 <= k < head.len() ==> head[k] == term@[k],
            i <= take,
            prefix@ == head.map_values(|c: char| if c == ' ' { '-' } else { c }).take(i as int),
        decreases take - i,
    {
        let c = term.as_str().get_char(i);
        let c2 = if c == ' ' {
            '-'
        } else {
            c
        };
        push_char(&mut prefix, c2);
        i = i + 1;
        proof {
            assert(prefix@ =~= head.map_values(|c: char| if c == ' ' { '-' } else { c }).take(
                i as int,
            ));
        }
    }
    proof {
        assert(prefix@ =~= head.map_values(|c: char| if c == ' ' { '-' } else { c }));
    }
    let low = lowercase(prefix.as_str());
    id.append(low.as_str());
    proof {
        assert(id@ =~= flashcard_id(timestamp_millis, term@));
    }
    id
}

fn find_term(cards: &Vec<FlashCard>, term: &String) -> (r: Option<usize>)
    ensures
        r matches Some(i) ==> term_index(cards@, term@) == Some(i as int) && i < cards@.len(),
        r is None ==> term_index(cards@, term@) is None,
{
    let key = lowercase(term.as_str());
    let mut i: usize = 0;
    while i < cards.len()
        invariant
            key@ == lower_of(term@),
            i <= cards@.len(),
            forall|k: int| 0 <= k < i ==> lower_of((#[trigger] cards@[k]).term@) != lower_of(term@),
        decreases cards@.len() - i,
    {
        if lowercase(cards[i].term.as_str()) == key {
            proof {
                lemma_term_index(cards@, term@);
            }
            return Some(i);
        }
        i = i + 1;
    }
    proof {
        lemma_term_index(cards@, term@);
    }
    None
}

fn find_card(cards: &Vec<FlashCard>, id: &String) -> (r: Option<usize>)
    ensures
        r matches Some(i) ==> card_index(cards@, id@) == Some(i as int) && i < cards@.len(),
        r is None ==> card_index(cards@, id@) is None,
{
    let mut i: usize = 0;
    while i < cards.len()
        invariant
            i <= cards@.len(),
            forall|k: int| 0 <= k < i ==> (#[trigger] cards@[k]).id@ != id@,
        decreases cards@.len() - i,
    {
        if cards[i].id == *id {
            proof {
                lemma_card_index(cards@, id@);
            }
            return Some(i);
        }
        i = i + 1;
    }
    proof {
        lemma_card_index(cards@, id@);
    }
    None
}

/// Adds a card for `term` at time `now` (`timestamp_millis` in
/// milliseconds). A card whose term matches ignoring case gets the new
/// definition and time; otherwise a new card goes to the front.
pub fn add_flashcard(
    cards: Vec<FlashCard>,
    term: String,
    definition: String,
    now: String,
    timestamp_millis: i64,
) -> (r: Vec<FlashCard>)
    ensures
        match term_index(cards@, term@) {
            Some(i) => r@ == cards@.update(
                i,
                FlashCard { definition, created_at: now, ..cards@[i] },
            ),
            None => {
                &&& r@.len() == cards@.len() + 1
                &&& r@.skip(1) == cards@
                &&& r@[0].id@ == flashcard_id(timestamp_millis, term@)
                &&& r@[0].term == term
                &&& r@[0].definition == definition
                &&& r@[0].created_at == now
            },
        },
{
    let ghost orig = cards@;
    let mut cards = cards;
    match find_term(&cards, &term) {
        Some(i) => {
            let old = cards[i].copy_of();
            cards.set(i, FlashCard { id: old.id, term: old.term, definition, created_at: now });
            cards
        },
        None => {
            let id = make_flashcard_id(timestamp_millis, &term);
            cards.insert(0, FlashCard { id, term, definition, created_at: now });
            proof {
                assert(cards@.skip(1) =~= orig);
            }
            cards
        },
    }
}

/// The line that separates a definition from an added explanation.
pub open spec fn explanation_separator() -> Seq<char> {
    "\n===========\n"@
}

/// Appends a detailed explanation to the card with id `card_id`, below a
/// separator line, and stamps it with `now`; fails when no card has the id.
pub fn append_detailed_explanation(
    cards: Vec<FlashCard>,
    card_id: &str,
    detailed_explanation: &str,
    now: String,
) -> (r: Result<Vec<FlashCard>, StorageError>)
    ensures
        card_index(cards@, card_id@) is None <==> r == Err::<Vec<FlashCard>, StorageError>(
            StorageError::CardNotFound,
        ),
        r matches Ok(v) ==> {
            let i = card_index(cards@, card_id@)->0;
            &&& v@.len() == cards@.len()
            &&& forall|k: int| 0 <= k < v@.len() && k != i ==> v@[k] == cards@[k]
            &&& v@[i].id == cards@[i].id
            &&& v@[i].term == cards@[i].term
            &&& v@[i].definition@ == cards@[i].definition@ + explanation_separator()
                + detailed_explanation@
            &&& v@[i].created_at == now
        },
{
    let id = String::from_str(card_id);
    let mut cards = cards;
    match find_card(&cards, &id) {
        Some(i) => {
            let old = cards[i].copy_of();
            let mut definition = old.definition;
            definition.append("\n===========\n");
            definition.append(detailed_explanation);
            cards.set(i, FlashCard { id: old.id, term: old.term, definition, created_at: now });
            Ok(cards)
        },
        None => Err(StorageError::CardNotFound),
    }
}

/// A point a reader marked on a page; `x` and `y` are in millionths of the
/// page's width and height from its top-left corner.
pub struct PositionMarker {
    pub id: String,
    pub page_index: usize,
    pub x: u32,
    pub y: u32,
    pub created_at: String,
    pub note: String,
}

/// The markers of one document.
pub struct PdfMarkers {
    pub pdf_path: String,
    pub markers: Vec<PositionMarker>,
    pub last_modified: String,
}

impl PositionMarker {
    /// An equal, independent copy.
    pub fn copy_of(&self) -> (r: PositionMarker)
        ensures
            r == *self,
    {
        PositionMarker {
            id: self.id.clone(),
            page_index: self.page_index,
            x: self.x,
            y: self.y,
            created_at: self.created_at.clone(),
            note: self.note.clone(),
        }
    }
}

/// Copies a list of markers.
fn copy_markers(v: &Vec<PositionMarker>) -> (r: Vec<PositionMarker>)
    ensures
        r@ == v@,
{
    let mut out: Vec<PositionMarker> = Vec::with_capacity(v.len());
    let mut i: usize = 0;
    while i < v.len()
        invariant
            i <= v@.len(),
            out@ == v@.take(i as int),
        decreases v@.len() - i,
    {
        out.push(v[i].copy_of());
        i = i + 1;
        proof {
            assert(out@ =~= v@.take(i as int));
        }
    }
    proof {
        assert(out@ =~= v@);
    }
    out
}

/// The position of the first marker set of the document `pdf_path`.
pub open spec fn markers_index(all: Seq<PdfMarkers>, pdf_path: Seq<char>) -> Option<int>
    decreases all.len(),
{
    if all.len() == 0 {
        None
    } else {
        match markers_index(all.drop_last(), pdf_path) {
            Some(i) => Some(i),
            None => if all.last().pdf_path@ == pdf_path {
                Some(all.len() - 1)
            } else {
                None
            },
        }
    }
}

proof fn lemma_markers_index(all: Seq<PdfMarkers>, pdf_path: Seq<char>)
    ensures
        match markers_index(all, pdf_path) {
            Some(i) => 0 <= i < all.len() && all[i].pdf_path@ == pdf_path && forall|k: int|
                0 <= k < i ==> (#[trigger] all[k]).pdf_path@ != pdf_path,
            None => forall|k: int| 0 <= k < all.len() ==> (#[trigger] all[k]).pdf_path@ != pdf_path,
        },
    decreases all.len(),
{
    if all.len() > 0 {
        let d = all.drop_last();
        lemma_markers_index(d, pdf_path);
        assert forall|k: int| 0 <= k < d.len() implies #[trigger] all[k] == d[k] by {}
    }
}

fn find_markers(all: &Vec<PdfMarkers>, pdf_path: &String) -> (r: Option<usize>)
    ensures
        r matches Some(i) ==> markers_index(all@, pdf_path@) == Some(i as int) && i < all@.len(),
        r is None ==> markers_index(all@, pdf_path@) is None,
{
    let mut i: usize = 0;
    while i < all.len()
        invariant
            i <= all@.len(),
            forall|k: int| 0 <= k < i ==> (#[trigger] all@[k]).pdf_path@ != pdf_path@,
        decreases all@.len() - i,
    {
        if all[i].pdf_path == *pdf_path {
            proof {
                lemma_markers_index(all@, pdf_path@);
            }
            return Some(i);
        }
        i = i + 1;
    }
    proof {
        lemma_markers_index(all@, pdf_path@);
    }
    None
}

/// The markers kept for a document (none if it has no entry).
pub fn find_position_markers(all: &Vec<PdfMarkers>, pdf_path: &str) -> (r: Vec<PositionMarker>)
    ensures
        match markers_index(all@, pdf_path@) {
            Some(i) => r@ == all@[i].markers@,
            None => r@.len() == 0,
        },
{
    let path = String::from_str(pdf_path);
    match find_markers(all, &path) {
        Some(i) => copy_markers(&all[i].markers),
        None => Vec::new(),
    }
}

/// Adds a marker to a document's set, stamping the set with `now`; a
/// document without a set gets a new one at the end.
pub fn add_position_marker(all: Vec<PdfMarkers>, pdf_path: &str, marker: PositionMarker, now: String) -> (r:
    Vec<PdfMarkers>)
    ensures
        match markers_index(all@, pdf_path@) {
            Some(i) => {
                &&& r@.len() == all@.len()
                &&& forall|k: int| 0 <= k < r@.len() && k != i ==> r@[k] == all@[k]
                &&& r@[i].pdf_path == all@[i].pdf_path
                &&& r@[i].markers@ == all@[i].markers@.push(marker)
                &&& r@[i].last_modified == now
            },
            None => {
                &&& r@.len() == all@.len() + 1
                &&& r@.take(all@.len() as int) == all@
                &&& r@.last().pdf_path@ == pdf_path@
                &&& r@.last().markers@ == seq![marker]
                &&& r@.last().last_modified == now
            },
        },
{
    let path = String::from_str(pdf_path);
    let ghost orig = all@;
    let mut all = all;
    match find_markers(&all, &path) {
        Some(i) => {
            let mut markers = copy_markers(&all[i].markers);
            markers.push(marker);
            let kept_path = all[i].pdf_path.clone();
            all.set(i, PdfMarkers { pdf_path: kept_path, markers, last_modified: now });
            all
        },
        None => {
            let mut markers: Vec<PositionMarker> = Vec::new();
            markers.push(marker);
            all.push(PdfMarkers { pdf_path: path, markers, last_modified: now });
            proof {
                assert(all@.take(orig.len() as int) =~= orig);
            }
            all
        },
    }
}

/// The markers whose id differs from `marker_id`, in order.
pub open spec fn markers_without(markers: Seq<PositionMarker>, marker_id: Seq<char>) -> Seq<PositionMarker> {
    markers.filter(|m: PositionMarker| m.id@ != marker_id)
}

/// Removes a marker from a document's set and stamps the set with `now`;
/// a document without a set is left as it is.
pub fn remove_position_marker(
    all: Vec<PdfMarkers>,
    pdf_path: &str,
    marker_id: &str,
    now: String,
) -> (r: Vec<PdfMarkers>)
    ensures
        match markers_index(all@, pdf_path@) {
            Some(i) => {
                &&& r@.len() == all@.len()
                &&& forall|k: int| 0 <= k < r@.len() && k != i ==> r@[k] == all@[k]
                &&& r@[i].pdf_path == all@[i].pdf_path
                &&& r@[i].markers@ == markers_without(all@[i].markers@, marker_id@)
                &&& r@[i].last_modified == now
            },
            None => r@ == all@,
        },
{
    let path = String::from_str(pdf_path);
    let id = String::from_str(marker_id);
    let mut all = all;
    match find_markers(&all, &path) {
        Some(i) => {
            let mut kept: Vec<PositionMarker> = Vec::new();
            let mut k: usize = 0;
            let n = all[i].markers.len();
            while k < n
                invariant
                    i < all@.len(),
                    n == all@[i as int].markers@.len(),
                    id@ == marker_id@,
                    k <= n,
                    kept@ == markers_without(all@[i as int].markers@.take(k as int), marker_id@),
                decreases n - k,
            {
                proof {
                    assert(all@[i as int].markers@.take(k + 1).drop_last() =~= all@[i as int].markers@.take(
                        k as int,
                    ));
                    reveal(Seq::filter);
                }
                if all[i].markers[k].id != id {
                    kept.push(all[i].markers[k].copy_of());
                }
                k = k + 1;
            }
            proof {
                assert(all@[i as int].markers@.take(k as int) =~= all@[i as int].markers@);
            }
            let kept_path = all[i].pdf_path.clone();
            all.set(i, PdfMarkers { pdf_path: kept_path, markers: kept, last_modified: now });
            all
        },
        None => all,
    }
}

impl PageRotations {
    /// An equal, independent copy.
    pub fn copy_of(&self) -> (r: PageRotations)
        ensures
            r.pdf_path == self.pdf_path,
            r.rotations@ == self.rotations@,
            r.last_modified == self.last_modified,
    {
        PageRotations {
            pdf_path: self.pdf_path.clone(),
            rotations: self.rotations.clone(),
            last_modified: self.last_modified.clone(),
        }
    }
}

/// The position of the first rotation record of the document `pdf_path`.
pub open spec fn rotations_index(all: Seq<PageRotations>, pdf_path: Seq<char>) -> Option<int>
    decreases all.len(),
{
    if all.len() == 0 {
        None
    } else {
        match rotations_index(all.drop_last(), pdf_path) {
            Some(i) => Some(i),
            None => if all.last().pdf_path@ == pdf_path {
                Some(all.len() - 1)
            } else {
                None
            },
        }
    }
}

proof fn lemma_rotations_index(all: Seq<PageRotations>, pdf_path: Seq<char>)
    ensures
        match rotations_index(all, pdf_path) {
            Some(i) => 0 <= i < all.len() && all[i].pdf_path@ == pdf_path && forall|k: int|
                0 <= k < i ==> (#[trigger] all[k]).pdf_path@ != pdf_path,
            None => forall|k: int| 0 <= k < all.len() ==> (#[trigger] all[k]).pdf_path@ != pdf_path,
        },
    decreases all.len(),
{
    if all.len() > 0 {
        let d = all.drop_last();
        lemma_rotations_index(d, pdf_path);
        assert forall|k: int| 0 <= k < d.len() implies #[trigger] all[k] == d[k] by {}
    }
}

fn find_rotations(all: &Vec<PageRotations>, pdf_path: &String) -> (r: Option<usize>)
    ensures
        r matches Some(i) ==> rotations_index(all@, pdf_path@) == Some(i as int) && i < all@.len(),
        r is None ==> rotations_index(all@, pdf_path@) is None,
{
    let mut i: usize = 0;
    while i < all.len()
        invariant
            i <= all@.len(),
            forall|k: int| 0 <= k < i ==> (#[trigger] all@[k]).pdf_path@ != pdf_path@,
        decreases all@.len() - i,
    {
        if all[i].pdf_path == *pdf_path {
            proof {
                lemma_rotations_index(all@, pdf_path@);
            }
            return Some(i);
        }
        i = i + 1;
    }
    proof {
        lemma_rotations_index(all@, pdf_path@);
    }
    None
}

/// The page rotations kept for a document (none if it has no record).
pub fn find_page_rotations(all: &Vec<PageRotations>, pdf_path: &str) -> (r: HashMap<usize, RotationAngle>)
    ensures
        match rotations_index(all@, pdf_path@) {
            Some(i) => r@ == all@[i].rotations@,
            None => r@ == Map::<usize, RotationAngle>::empty(),
        },
{
    let path = String::from_str(pdf_path);
    match find_rotations(all, &path) {
        Some(i) => all[i].rotations.clone(),
        None => HashMap::new(),
    }
}

/// Saves a document's rotation record: it replaces the first record of the
/// same document, or is appended.
pub fn upsert_page_rotations(all: Vec<PageRotations>, entry: PageRotations) -> (r: Vec<PageRotations>)
    ensures
        match rotations_index(all@, entry.pdf_path@) {
            Some(i) => r@ == all@.update(i, entry),
            None => r@ == all@.push(entry),
        },
{
    let mut all = all;
    match find_rotations(&all, &entry.pdf_path) {
        Some(i) => {
            all.set(i, entry);
        },
        None => {
            all.push(entry);
        },
    }
    all
}

} // verus!
