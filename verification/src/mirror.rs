//! What a mirror of advisory records holds: which files of a directory are records, and the
//! records of an archive.
use vstd::prelude::*;
use crate::reach;
use crate::text;

verus! {

/// Whether a file of a directory holds a record, by its name.
pub fn is_record_file(name: &str) -> (r: bool)
    ensures
        r == (reach::extension_of(name@) == Some("json"@)),
{
    let e: Option<String> = reach::extension(name);
    text::is_text(&e, "json")
}

/// Whether an entry of an archive holds a record, by its name.
pub open spec fn is_record_name(name: Seq<char>) -> bool {
    ".json"@.is_suffix_of(name)
}

/// Whether an entry of an archive holds a record, by its name.
pub fn names_record(name: &str) -> (r: bool)
    ensures
        r == is_record_name(name@),
{
    let v: Vec<char> = text::chars(name);
    proof {
        reveal_strlit(".json");
    }
    if v.len() < 5 {
        return false;
    }
    text::same(text::text_of(&v, v.len() - 5, v.len()).as_str(), ".json")
}

/// What a [`ArchiveError`] stands for.
#[verifier::ext_equal]
pub enum ArchiveErrorM {
    Read(Seq<char>),
    Archive(Seq<char>),
}

/// Why an archive cannot be used.
#[derive(Debug, PartialEq, Eq)]
pub enum ArchiveError {
    /// Its bytes end too early, or an entry cannot be unpacked or is not text.
    Read(String),
    /// It is not an archive, or not one that can be read.
    Archive(String),
}

impl DeepView for ArchiveError {
    type V = ArchiveErrorM;

    open spec fn deep_view(&self) -> ArchiveErrorM {
        match self {
            ArchiveError::Read(e) => ArchiveErrorM::Read(e@),
            ArchiveError::Archive(e) => ArchiveErrorM::Archive(e@),
        }
    }
}

// --- The archive reader ---

/// How many entries the archive has that the bytes are.
pub uninterp spec fn archive_size(bytes: Seq<u8>) -> Result<nat, ArchiveErrorM>;

/// The name of the entry at `i`.
pub uninterp spec fn archive_name(bytes: Seq<u8>, i: nat) -> Result<Seq<char>, ArchiveErrorM>;

/// The text of the entry at `i`.
pub uninterp spec fn archive_text(bytes: Seq<u8>, i: nat) -> Result<Seq<char>, ArchiveErrorM>;

/// Counts the entries of an archive.
///
/// Calls `zip::ZipArchive::new` on the bytes, and `len`. A failure is handed on as its text, one
/// of input and output apart from the others. What the bytes of an archive mean is left unsaid.
#[verifier::external_body]
fn size_of_archive(bytes: &Vec<u8>) -> (r: Result<usize, ArchiveError>)
    ensures
        archive_size(bytes@) == (match r {
            Ok(n) => Ok::<nat, ArchiveErrorM>(n as nat),
            Err(e) => Err::<nat, ArchiveErrorM>(e.deep_view()),
        }),
{
    zip::ZipArchive::new(std::io::Cursor::new(bytes.as_slice())).map(|a| a.len()).map_err(
        |e|
            match e {
                zip::result::ZipError::Io(x) => ArchiveError::Read(x.to_string()),
                x => ArchiveError::Archive(x.to_string()),
            },
    )
}

/// Reads the name of an entry.
///
/// Calls `zip::ZipArchive::new` on the bytes, `by_index`, and `name`. A failure is handed on as
/// its text, one of input and output apart from the others.
#[verifier::external_body]
fn name_in_archive(bytes: &Vec<u8>, i: usize) -> (r: Result<String, ArchiveError>)
    ensures
        archive_name(bytes@, i as nat) == (match r {
            Ok(t) => Ok::<Seq<char>, ArchiveErrorM>(t@),
            Err(e) => Err::<Seq<char>, ArchiveErrorM>(e.deep_view()),
        }),
{
    zip::ZipArchive::new(std::io::Cursor::new(bytes.as_slice())).and_then(
        |mut a| a.by_index(i).map(|f| f.name().to_string()),
    ).map_err(
        |e|
            match e {
                zip::result::ZipError::Io(x) => ArchiveError::Read(x.to_string()),
                x => ArchiveError::Archive(x.to_string()),
            },
    )
}

/// Unpacks an entry as text.
///
/// Calls `zip::ZipArchive::new` on the bytes, `by_index`, and `std::io::read_to_string` on the
/// entry. A failure is handed on as its text, one of input and output apart from the others.
#[verifier::external_body]
fn text_in_archive(bytes: &Vec<u8>, i: usize) -> (r: Result<String, ArchiveError>)
    ensures
        archive_text(bytes@, i as nat) == (match r {
            Ok(t) => Ok::<Seq<char>, ArchiveErrorM>(t@),
            Err(e) => Err::<Seq<char>, ArchiveErrorM>(e.deep_view()),
        }),
{
    zip::ZipArchive::new(std::io::Cursor::new(bytes.as_slice())).and_then(|mut a| {
        Ok(std::io::read_to_string(a.by_index(i)?)?)
    }).map_err(
        |e|
            match e {
                zip::result::ZipError::Io(x) => ArchiveError::Read(x.to_string()),
                x => ArchiveError::Archive(x.to_string()),
            },
    )
}

// --- The records of an archive ---

/// What a [`Entry`] stands for.
#[verifier::ext_equal]
pub enum EntryM {
    Record(Seq<char>),
    Other,
    Failed(ArchiveErrorM),
}

/// What reading an entry of an archive came to.
#[derive(Debug, PartialEq, Eq)]
pub enum Entry {
    /// The text of a record.
    Record(String),
    /// Not a record, and not unpacked.
    Other,
    Failed(ArchiveError),
}

impl DeepView for Entry {
    type V = EntryM;

    open spec fn deep_view(&self) -> EntryM {
        match self {
            Entry::Record(t) => EntryM::Record(t@),
            Entry::Other => EntryM::Other,
            Entry::Failed(e) => EntryM::Failed(e.deep_view()),
        }
    }
}

/// What an entry comes to, given its name and its text.
pub open spec fn entry_of(
    name: Result<Seq<char>, ArchiveErrorM>,
    content: Result<Seq<char>, ArchiveErrorM>,
) -> EntryM {
    match name {
        Err(e) => EntryM::Failed(e),
        Ok(n) => if !is_record_name(n) {
            EntryM::Other
        } else {
            match content {
                Err(e) => EntryM::Failed(e),
                Ok(t) => EntryM::Record(t),
            }
        },
    }
}

/// The texts of the records in the order of the entries, or the first failure.
pub open spec fn records_in(entries: Seq<EntryM>) -> Result<Seq<Seq<char>>, ArchiveErrorM>
    decreases entries.len(),
{
    if entries.len() == 0 {
        Ok(Seq::empty())
    } else {
        match records_in(entries.drop_last()) {
            Err(e) => Err(e),
            Ok(front) => match entries.last() {
                EntryM::Record(t) => Ok(front.push(t)),
                EntryM::Other => Ok(front),
                EntryM::Failed(e) => Err(e),
            },
        }
    }
}

proof fn lemma_failure_stays(entries: Seq<EntryM>, n: int)
    requires
        0 <= n <= entries.len(),
        records_in(entries.take(n)) is Err,
    ensures
        records_in(entries) == records_in(entries.take(n)),
    decreases entries.len(),
{
    if n < entries.len() {
        assert(entries.drop_last().take(n) =~= entries.take(n));
        lemma_failure_stays(entries.drop_last(), n);
    } else {
        assert(entries.take(n) =~= entries);
    }
}

/// The texts of the records among entries, in their order. The first failure fails all.
pub fn gather_records(entries: Vec<Entry>) -> (r: Result<Vec<String>, ArchiveError>)
    ensures
        records_in(entries.deep_view()) == (match r {
            Ok(v) => Ok::<Seq<Seq<char>>, ArchiveErrorM>(v.deep_view()),
            Err(e) => Err::<Seq<Seq<char>>, ArchiveErrorM>(e.deep_view()),
        }),
{
    let ghost all = entries.deep_view();
    let mut out: Vec<String> = Vec::new();
    let ghost mut n: int = 0;
    proof {
        assert(all.take(0) =~= Seq::empty());
        assert(out.deep_view() =~= Seq::empty());
    }
    for x in it: entries
        invariant
            it.seq() == entries@,
            all == entries.deep_view(),
            n == it.index(),
            n <= all.len(),
            records_in(all.take(n)) == Ok::<Seq<Seq<char>>, ArchiveErrorM>(out.deep_view()),
    {
        proof {
            assert(all.take(n + 1).drop_last() =~= all.take(n));
            assert(all.take(n + 1).last() == x.deep_view());
        }
        match x {
            Entry::Record(t) => {
                let ghost before = out.deep_view();
                out.push(t);
                assert(out.deep_view() =~= before.push(t@));
            },
            Entry::Other => {},
            Entry::Failed(e) => {
                proof {
                    lemma_failure_stays(all, n + 1);
                }
                return Err(e);
            },
        }
        proof {
            n = n + 1;
        }
    }
    assert(all.take(n) =~= all);
    Ok(out)
}

/// What the entry at `i` comes to.
pub open spec fn entry_at(bytes: Seq<u8>, i: nat) -> EntryM {
    entry_of(archive_name(bytes, i), archive_text(bytes, i))
}

/// The texts of the records of an archive, or why it cannot be used.
pub open spec fn archive_records_of(bytes: Seq<u8>) -> Result<Seq<Seq<char>>, ArchiveErrorM> {
    match archive_size(bytes) {
        Err(e) => Err(e),
        Ok(n) => records_in(Seq::new(n, |i: int| entry_at(bytes, i as nat))),
    }
}

fn read_entry(bytes: &Vec<u8>, i: usize) -> (r: Entry)
    ensures
        r.deep_view() == entry_at(bytes@, i as nat),
{
    match name_in_archive(bytes, i) {
        Err(e) => Entry::Failed(e),
        Ok(name) => if names_record(name.as_str()) {
            match text_in_archive(bytes, i) {
                Err(e) => Entry::Failed(e),
                Ok(t) => Entry::Record(t),
            }
        } else {
            Entry::Other
        },
    }
}

/// The texts of the records of an archive, in its order: the entries whose names end in
/// `.json`. An archive that cannot be opened, an entry that cannot be opened, and a record that
/// cannot be unpacked fail it as a whole.
pub fn archive_records(bytes: &Vec<u8>) -> (r: Result<Vec<String>, ArchiveError>)
    ensures
        archive_records_of(bytes@) == (match r {
            Ok(v) => Ok::<Seq<Seq<char>>, ArchiveErrorM>(v.deep_view()),
            Err(e) => Err::<Seq<Seq<char>>, ArchiveErrorM>(e.deep_view()),
        }),
{
    let size: usize = match size_of_archive(bytes) {
        Err(e) => {
            return Err(e);
        },
        Ok(n) => n,
    };
    let ghost all = Seq::new(size as nat, |i: int| entry_at(bytes@, i as nat));
    let mut entries: Vec<Entry> = Vec::new();
    let mut i: usize = 0;
    assert(entries.deep_view() =~= all.take(0));
    while i < size
        invariant
            i <= size,
            all == Seq::new(size as nat, |i: int| entry_at(bytes@, i as nat)),
            entries.deep_view() == all.take(i as int),
        decreases size - i,
    {
        let ghost before = entries.deep_view();
        let x: Entry = read_entry(bytes, i);
        entries.push(x);
        i += 1;
        proof {
            assert(entries.deep_view() =~= before.push(x.deep_view()));
            assert(all.take(i as int) =~= all.take(i - 1).push(all[i - 1]));
        }
    }
    assert(all.take(i as int) =~= all);
    gather_records(entries)
}

// --- Laws ---

/// A load fails closed: it succeeds exactly where no entry failed, and every record is then
/// among the texts, and nothing else.
pub proof fn nothing_unreadable_is_passed_over(entries: Seq<EntryM>)
    ensures
        records_in(entries) is Err <==> exists|i: int|
            0 <= i < entries.len() && (#[trigger] entries[i]) is Failed,
        records_in(entries) matches Ok(texts) ==> forall|t: Seq<char>| #[trigger]
            texts.contains(t) == entries.contains(EntryM::Record(t)),
    decreases entries.len(),
{
    if entries.len() > 0 {
        let l = entries.drop_last();
        let x = entries.last();
        nothing_unreadable_is_passed_over(l);
        assert(entries[entries.len() - 1] == x);
        if exists|i: int| 0 <= i < l.len() && (#[trigger] l[i]) is Failed {
            let i = choose|i: int| 0 <= i < l.len() && (#[trigger] l[i]) is Failed;
            assert(entries[i] is Failed);
        }
        if exists|i: int| 0 <= i < entries.len() && (#[trigger] entries[i]) is Failed {
            let i = choose|i: int| 0 <= i < entries.len() && (#[trigger] entries[i]) is Failed;
            if i < l.len() {
                assert(l[i] is Failed);
            }
        }
        if let Ok(texts) = records_in(entries) {
            let front = records_in(l)->Ok_0;
            assert forall|t: Seq<char>| #[trigger] texts.contains(t) == entries.contains(
                EntryM::Record(t),
            ) by {
                if texts.contains(t) {
                    let j = choose|j: int| 0 <= j < texts.len() && texts[j] == t;
                    if j < front.len() {
                        assert(front[j] == t);
                        assert(front.contains(t));
                        let k = choose|k: int| 0 <= k < l.len() && l[k] == EntryM::Record(t);
                        assert(entries[k] == EntryM::Record(t));
                    }
                }
                if entries.contains(EntryM::Record(t)) {
                    let k = choose|k: int|
                        0 <= k < entries.len() && entries[k] == EntryM::Record(t);
                    if k < l.len() {
                        assert(l[k] == EntryM::Record(t));
                        assert(front.contains(t));
                        let j = choose|j: int| 0 <= j < front.len() && front[j] == t;
                        assert(texts[j] == t);
                    } else {
                        assert(texts[texts.len() - 1] == t);
                    }
                }
            }
        }
    }
}

/// An entry holds a record exactly where its name ends in `.json`.
pub proof fn a_record_ends_in_json(name: Seq<char>)
    ensures
        is_record_name(name) <==> name.len() >= 5 && name[name.len() - 5] == '.' && name[name.len()
            - 4] == 'j' && name[name.len() - 3] == 's' && name[name.len() - 2] == 'o'
            && name[name.len() - 1] == 'n',
{
    reveal_strlit(".json");
    let p = ".json"@;
    assert(p.len() == 5);
    if name.len() >= 5 {
        let t = name.subrange(name.len() - 5, name.len() as int);
        assert(t[0] == name[name.len() - 5] && t[1] == name[name.len() - 4] && t[2]
            == name[name.len() - 3] && t[3] == name[name.len() - 2] && t[4] == name[name.len() - 1]);
        if t[0] == '.' && t[1] == 'j' && t[2] == 's' && t[3] == 'o' && t[4] == 'n' {
            assert(t =~= p);
        }
    }
}

/// The texts of the records come in the order of the entries; the first failure is the one that
/// is told.
pub proof fn records_keep_their_order(entries: Seq<EntryM>)
    ensures
        records_in(entries) matches Ok(texts) ==> texts == entries.filter(
            |e: EntryM| e is Record,
        ).map_values(|e: EntryM| e->Record_0),
        forall|i: int|
            0 <= i < entries.len() && (forall|k: int|
                0 <= k < i ==> !((#[trigger] entries[k]) is Failed)) ==> (
            #[trigger] entries[i] matches EntryM::Failed(e) ==> records_in(entries) == Err::<
                Seq<Seq<char>>,
                ArchiveErrorM,
            >(e)),
    decreases entries.len(),
{
    reveal(Seq::filter);
    let p = |e: EntryM| e is Record;
    let f = |e: EntryM| e->Record_0;
    if entries.len() > 0 {
        let l = entries.drop_last();
        let n = l.len() as int;
        records_keep_their_order(l);
        nothing_unreadable_is_passed_over(l);
        assert(entries[n] == entries.last());
        assert forall|k: int| 0 <= k < n implies #[trigger] entries[k] == l[k] by {}
        if p(entries.last()) {
            assert(entries.filter(p).map_values(f) =~= l.filter(p).map_values(f).push(
                f(entries.last()),
            ));
        }
        assert forall|i: int|
            0 <= i < entries.len() && (forall|k: int|
                0 <= k < i ==> !((#[trigger] entries[k]) is Failed)) implies (
        #[trigger] entries[i] matches EntryM::Failed(e) ==> records_in(entries) == Err::<
            Seq<Seq<char>>,
            ArchiveErrorM,
        >(e)) by {
            if let EntryM::Failed(e) = entries[i] {
                if i < n {
                    assert(l[i] == entries[i]);
                    assert forall|k: int| 0 <= k < i implies !((#[trigger] l[k]) is Failed) by {
                        assert(!(entries[k] is Failed));
                    }
                } else if records_in(l) is Err {
                    let q = choose|q: int| 0 <= q < l.len() && (#[trigger] l[q]) is Failed;
                    assert(!(entries[q] is Failed));
                }
            }
        }
    } else {
        assert(entries.filter(p).map_values(f) =~= Seq::empty());
    }
}

/// What an entry comes to: nothing where it is no record, whatever is in it; its text where it is
/// one and could be read; and a failure where its name, or the text of a record, could not be.
pub proof fn only_records_are_read(
    name: Result<Seq<char>, ArchiveErrorM>,
    content: Result<Seq<char>, ArchiveErrorM>,
)
    ensures
        entry_of(name, content) is Other <==> (name matches Ok(n) && !is_record_name(n)),
        name matches Ok(n) && is_record_name(n) && content is Ok ==> entry_of(name, content)
            == EntryM::Record(content->Ok_0),
        name matches Ok(n) && is_record_name(n) && content is Err ==> entry_of(name, content)
            == EntryM::Failed(content->Err_0),
        name is Err ==> entry_of(name, content) == EntryM::Failed(name->Err_0),
{
}

} // verus!
