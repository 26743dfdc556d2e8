use vstd::prelude::*;
use vstd::string::*;

verus! {

/// Why a dictionary could not be read or extended.
#[derive(Clone, Copy, Debug, PartialEq, Eq, Structural)]
pub enum DictionaryError {
    /// The bytes are not well-formed CSV.
    MalformedCsv,
    /// The header has neither exactly two columns nor columns named `hash`
    /// and `link`.
    MissingColumns,
    /// A row has fewer fields than the fingerprint or link column needs.
    RowTooShort,
    /// No row holds a non-empty fingerprint and a valid link.
    NoValidEntries,
    /// A row could not be written as CSV.
    EncodingFailed,
}

/// The fields of a CSV header, trimmed; `None` when the reader fails.
pub uninterp spec fn csv_header_of(content: Seq<u8>) -> Option<Seq<Seq<char>>>;

/// The data rows of a CSV file, trimmed; `None` when the reader fails.
pub uninterp spec fn csv_rows_of(content: Seq<u8>) -> Option<Seq<Seq<Seq<char>>>>;

/// The bytes of one CSV record; `None` when the writer fails.
pub uninterp spec fn csv_line_of(fields: Seq<Seq<char>>) -> Option<Seq<u8>>;

/// Unicode lowercase of a string.
pub uninterp spec fn lower_of(s: Seq<char>) -> Seq<char>;

/// A string without its leading and trailing Unicode white space.
pub uninterp spec fn trimmed_of(s: Seq<char>) -> Seq<char>;

/// The string parses as an absolute URL.
pub uninterp spec fn url_parses(s: Seq<char>) -> bool;

/// The character sequences of a sequence of strings.
pub open spec fn strings_view(v: Seq<String>) -> Seq<Seq<char>> {
    v.map_values(|s: String| s@)
}

/// The character sequences of each row.
pub open spec fn rows_view(v: Seq<Vec<String>>) -> Seq<Seq<Seq<char>>> {
    v.map_values(|r: Vec<String>| strings_view(r@))
}

/// The character sequences of fingerprint-link pairs.
pub open spec fn pairs_view(v: Seq<(String, String)>) -> Seq<(Seq<char>, Seq<char>)> {
    v.map_values(|e: (String, String)| (e.0@, e.1@))
}

/// Relies on `csv::Reader::headers` of a reader that trims all fields and
/// insists on records of equal length, over the given bytes.
#[verifier::external_body]
fn csv_header(content: &[u8]) -> (r: Option<Vec<String>>)
    ensures
        match r {
            Some(v) => csv_header_of(content@) == Some(strings_view(v@)),
            None => csv_header_of(content@) is None,
        },
{
    let mut reader = csv::ReaderBuilder::new().flexible(false).trim(csv::Trim::All).from_reader(
        content,
    );
    let header = reader.headers().ok()?;
    Some(header.iter().map(|f| f.to_string()).collect())
}

/// Relies on `csv::Reader::records` of the same reader: the records after the
/// header, or the first error. As the reader is not flexible, every record
/// read has as many fields as the header (`ReaderState::add_record`).
#[verifier::external_body]
fn csv_rows(content: &[u8]) -> (r: Option<Vec<Vec<String>>>)
    ensures
        match r {
            Some(v) => csv_rows_of(content@) == Some(rows_view(v@)),
            None => csv_rows_of(content@) is None,
        },
        r matches Some(v) ==> (csv_header_of(content@) matches Some(hd) ==> forall|i: int|
            0 <= i < v@.len() ==> (#[trigger] v@[i])@.len() == hd.len()),
{
    let mut reader = csv::ReaderBuilder::new().flexible(false).trim(csv::Trim::All).from_reader(
        content,
    );
    let rows = reader.records().map(|rec| rec.map(|r| r.iter().map(|f| f.to_string()).collect()));
    rows.collect::<Result<Vec<Vec<String>>, csv::Error>>().ok()
}

/// Relies on `csv::Writer::write_record` into a fresh in-memory writer: the
/// bytes of one record with its terminator.
#[verifier::external_body]
fn csv_line(fields: &Vec<String>) -> (r: Option<Vec<u8>>)
    ensures
        match r {
            Some(v) => csv_line_of(strings_view(fields@)) == Some(v@),
            None => csv_line_of(strings_view(fields@)) is None,
        },
{
    let mut writer = csv::Writer::from_writer(Vec::new());
    writer.write_record(fields).ok()?;
    writer.into_inner().ok()
}

/// Relies on `str::to_lowercase`.
#[verifier::external_body]
fn lowercase(s: &str) -> (r: String)
    ensures
        r@ == lower_of(s@),
{
    s.to_lowercase()
}

/// Relies on `str::trim`.
#[verifier::external_body]
fn trim_field(s: &str) -> (r: String)
    ensures
        r@ == trimmed_of(s@),
{
    s.trim().to_string()
}

/// Relies on `url::Url::parse`: whether it accepts the string.
#[verifier::external_body]
fn link_is_valid(s: &str) -> (r: bool)
    ensures
        r == url_parses(s@),
{
    url::Url::parse(s).is_ok()
}

/// The last index below `k` whose name is `w`.
pub open spec fn last_index_of(names: Seq<Seq<char>>, w: Seq<char>, k: nat) -> Option<int>
    decreases k,
{
    if k == 0 {
        None
    } else if names[k - 1] == w {
        Some(k - 1)
    } else {
        last_index_of(names, w, (k - 1) as nat)
    }
}

/// Fingerprint and link columns of a header whose names are already
/// lowercased: the two columns in order when there are exactly two, else the
/// last columns named `hash` and `link`.
pub open spec fn columns_of_lowered(lowered: Seq<Seq<char>>) -> Option<(int, int)> {
    if lowered.len() == 2 {
        Some((0, 1))
    } else {
        match (
            last_index_of(lowered, "hash"@, lowered.len()),
            last_index_of(lowered, "link"@, lowered.len()),
        ) {
            (Some(h), Some(l)) => Some((h, l)),
            _ => None,
        }
    }
}

/// Fingerprint and link columns of a header, names compared without case.
pub open spec fn header_columns(header: Seq<Seq<char>>) -> Option<(int, int)> {
    columns_of_lowered(header.map_values(|h: Seq<char>| lower_of(h)))
}

/// Column lookup over lowercased header names.
pub fn columns_from_lowered(lowered: &Vec<String>) -> (r: Option<(usize, usize)>)
    ensures
        match r {
            Some((h, l)) => columns_of_lowered(strings_view(lowered@)) == Some((h as int, l as int)),
            None => columns_of_lowered(strings_view(lowered@)) is None,
        },
{
    let ghost names = strings_view(lowered@);
    let n = lowered.len();
    if n == 2 {
        return Some((0, 1));
    }
    let hash_name = String::from_str("hash");
    let link_name = String::from_str("link");
    proof {
        reveal_strlit("hash");
        reveal_strlit("link");
        assert("hash"@[0] != "link"@[0]);
    }
    let mut hash_index: Option<usize> = None;
    let mut link_index: Option<usize> = None;
    let mut i: usize = 0;
    while i < n
        invariant
            n == lowered@.len(),
            names == strings_view(lowered@),
            hash_name@ == "hash"@,
            link_name@ == "link"@,
            "hash"@ != "link"@,
            i <= n,
            match hash_index {
                Some(h) => last_index_of(names, "hash"@, i as nat) == Some(h as int),
                None => last_index_of(names, "hash"@, i as nat) is None,
            },
            match link_index {
                Some(l) => last_index_of(names, "link"@, i as nat) == Some(l as int),
                None => last_index_of(names, "link"@, i as nat) is None,
            },
        decreases n - i,
    {
        assert(names[i as int] == lowered@[i as int]@);
        if lowered[i] == hash_name {
            hash_index = Some(i);
        } else if lowered[i] == link_name {
            link_index = Some(i);
        }
        i = i + 1;
    }
    match (hash_index, link_index) {
        (Some(h), Some(l)) => Some((h, l)),
        _ => None,
    }
}

/// Finds the fingerprint and link columns of a header.
pub fn find_columns(header: &Vec<String>) -> (r: Option<(usize, usize)>)
    ensures
        match r {
            Some((h, l)) => header_columns(strings_view(header@)) == Some((h as int, l as int))
                && h < header@.len() && l < header@.len(),
            None => header_columns(strings_view(header@)) is None,
        },
{
    let ghost lowered_names = strings_view(header@).map_values(|h: Seq<char>| lower_of(h));
    let mut lowered: Vec<String> = Vec::new();
    let mut i: usize = 0;
    while i < header.len()
        invariant
            i <= header@.len(),
            lowered_names == strings_view(header@).map_values(|h: Seq<char>| lower_of(h)),
            strings_view(lowered@) == lowered_names.subrange(0, i as int),
        decreases header@.len() - i,
    {
        let low = lowercase(header[i].as_str());
        proof {
            assert(lowered_names[i as int] == low@);
        }
        let ghost before = lowered@;
        lowered.push(low);
        proof {
            assert(lowered@ == before.push(low));
            assert(strings_view(lowered@) =~= strings_view(before).push(low@));
            assert(lowered_names.subrange(0, i + 1) =~= lowered_names.subrange(0, i as int).push(
                low@,
            ));
        }
        i = i + 1;
    }
    proof {
        assert(strings_view(lowered@) =~= lowered_names);
    }
    let r = columns_from_lowered(&lowered);
    proof {
        if let Some((h, l)) = r {
            if lowered_names.len() != 2 {
                lemma_last_index_bound(lowered_names, "hash"@, lowered_names.len());
                lemma_last_index_bound(lowered_names, "link"@, lowered_names.len());
            }
        }
    }
    r
}

proof fn lemma_last_index_bound(names: Seq<Seq<char>>, w: Seq<char>, k: nat)
    ensures
        last_index_of(names, w, k) matches Some(i) ==> 0 <= i < k,
    decreases k,
{
    if k > 0 {
        lemma_last_index_bound(names, w, (k - 1) as nat);
    }
}

/// Every row has a field at both column indices.
pub open spec fn rows_fit(rows: Seq<Seq<Seq<char>>>, h: int, l: int) -> bool {
    forall|i: int| 0 <= i < rows.len() ==> h < (#[trigger] rows[i]).len() && l < rows[i].len()
}

/// The entry a row stands for: its trimmed fingerprint and link.
pub open spec fn entry_of(row: Seq<Seq<char>>, h: int, l: int) -> (Seq<char>, Seq<char>) {
    (trimmed_of(row[h]), trimmed_of(row[l]))
}

/// An entry is kept when both fields are non-empty and the link is a URL.
pub open spec fn usable(e: (Seq<char>, Seq<char>)) -> bool {
    e.0.len() > 0 && e.1.len() > 0 && url_parses(e.1)
}

/// The usable entries of the first `k` rows, in order.
pub open spec fn entries_of(rows: Seq<Seq<Seq<char>>>, h: int, l: int, k: nat) -> Seq<
    (Seq<char>, Seq<char>),
>
    decreases k,
{
    if k == 0 {
        Seq::empty()
    } else {
        let before = entries_of(rows, h, l, (k - 1) as nat);
        let e = entry_of(rows[k - 1], h, l);
        if usable(e) {
            before.push(e)
        } else {
            before
        }
    }
}

/// The entries of data rows: an error when a row is too short or when no row
/// is usable.
pub open spec fn dictionary_of_rows(rows: Seq<Seq<Seq<char>>>, h: int, l: int) -> Result<
    Seq<(Seq<char>, Seq<char>)>,
    DictionaryError,
> {
    if !rows_fit(rows, h, l) {
        Err(DictionaryError::RowTooShort)
    } else if entries_of(rows, h, l, rows.len()).len() == 0 {
        Err(DictionaryError::NoValidEntries)
    } else {
        Ok(entries_of(rows, h, l, rows.len()))
    }
}

/// The dictionary held by the bytes of a CSV file.
pub open spec fn dictionary_of(content: Seq<u8>) -> Result<Seq<(Seq<char>, Seq<char>)>, DictionaryError> {
    match csv_header_of(content) {
        None => Err(DictionaryError::MalformedCsv),
        Some(header) => match header_columns(header) {
            None => Err(DictionaryError::MissingColumns),
            Some((h, l)) => match csv_rows_of(content) {
                None => Err(DictionaryError::MalformedCsv),
                Some(rows) => dictionary_of_rows(rows, h, l),
            },
        },
    }
}

/// The view of a result that holds fingerprint-link pairs.
pub open spec fn pairs_result(r: Result<Vec<(String, String)>, DictionaryError>) -> Result<
    Seq<(Seq<char>, Seq<char>)>,
    DictionaryError,
> {
    match r {
        Ok(v) => Ok(pairs_view(v@)),
        Err(e) => Err(e),
    }
}

/// Turns data rows into entries: each field is trimmed, rows with an empty
/// field or a link that is not a URL are skipped. Fails when a row is too
/// short for the columns, or when no row is left.
pub fn entries_from_rows(rows: &Vec<Vec<String>>, hash_idx: usize, link_idx: usize) -> (r: Result<
    Vec<(String, String)>,
    DictionaryError,
>)
    ensures
        pairs_result(r) == dictionary_of_rows(rows_view(rows@), hash_idx as int, link_idx as int),
{
    let ghost rv = rows_view(rows@);
    let ghost (h, l) = (hash_idx as int, link_idx as int);
    let mut i: usize = 0;
    while i < rows.len()
        invariant
            rv == rows_view(rows@),
            h == hash_idx,
            l == link_idx,
            i <= rows@.len(),
            forall|j: int| 0 <= j < i ==> h < (#[trigger] rv[j]).len() && l < rv[j].len(),
        decreases rows@.len() - i,
    {
        if rows[i].len() <= hash_idx || rows[i].len() <= link_idx {
            proof {
                assert(!(h < rv[i as int].len() && l < rv[i as int].len()));
            }
            return Err(DictionaryError::RowTooShort);
        }
        i = i + 1;
    }
    let mut links: Vec<(String, String)> = Vec::new();
    let mut k: usize = 0;
    while k < rows.len()
        invariant
            rv == rows_view(rows@),
            h == hash_idx,
            l == link_idx,
            rows_fit(rv, h, l),
            k <= rows@.len(),
            pairs_view(links@) == entries_of(rv, h, l, k as nat),
        decreases rows@.len() - k,
    {
        let row = &rows[k];
        assert(rv[k as int] == strings_view(row@));
        let hash = trim_field(row[hash_idx].as_str());
        let link = trim_field(row[link_idx].as_str());
        if hash.unicode_len() > 0 && link.unicode_len() > 0 && link_is_valid(link.as_str()) {
            let ghost before = links@;
            links.push((hash, link));
            proof {
                assert(pairs_view(links@) =~= pairs_view(before).push((hash@, link@)));
            }
        }
        k = k + 1;
    }
    if links.len() == 0 {
        return Err(DictionaryError::NoValidEntries);
    }
    proof {
        assert(pairs_view(links@).len() == links@.len());
    }
    Ok(links)
}

/// Reads the fingerprint-link entries of a CSV dictionary held in `content`.
///
/// The header gives the columns: the two columns in order when there are
/// exactly two, else the columns named `hash` and `link` in any case. Rows
/// whose trimmed fingerprint or link is empty, or whose link is not a URL,
/// are skipped; only a dictionary with no entry left is an error.
/// Every row has the header's width, so a file whose header has the columns
/// never fails for a short row: when no row is usable the one error is
/// `NoValidEntries`.
pub fn load_data_from_csv(content: &[u8]) -> (r: Result<Vec<(String, String)>, DictionaryError>)
    ensures
        pairs_result(r) == dictionary_of(content@),
        !(r matches Err(DictionaryError::RowTooShort)),
{
    let header = match csv_header(content) {
        Some(h) => h,
        None => return Err(DictionaryError::MalformedCsv),
    };
    let (hash_idx, link_idx) = match find_columns(&header) {
        Some(c) => c,
        None => return Err(DictionaryError::MissingColumns),
    };
    let rows = match csv_rows(content) {
        Some(rows) => rows,
        None => return Err(DictionaryError::MalformedCsv),
    };
    proof {
        let rv = rows_view(rows@);
        assert forall|i: int| 0 <= i < rv.len() implies hash_idx < (#[trigger] rv[i]).len()
            && link_idx < rv[i].len() by {
            assert(rv[i] == strings_view(rows@[i]@));
            assert(rows@[i]@.len() == strings_view(header@).len());
        }
    }
    entries_from_rows(&rows, hash_idx, link_idx)
}

/// The header written when a dictionary is created.
pub open spec fn canonical_header() -> Seq<Seq<char>> {
    seq!["hash"@, "link"@]
}

/// The file once it exists: as it was, or the canonical header alone.
pub open spec fn file_after_create(existing: Option<Seq<u8>>) -> Option<Seq<u8>> {
    match existing {
        Some(c) => Some(c),
        None => csv_line_of(canonical_header()),
    }
}

/// A newline when the file is non-empty and does not end with one.
pub open spec fn newline_fix(content: Seq<u8>) -> Seq<u8> {
    if content.len() > 0 && content.last() != 10u8 {
        seq![10u8]
    } else {
        Seq::empty()
    }
}

/// The fields of the row for entry `e` in a file of `n` columns: the
/// fingerprint and the link at their columns, every other field empty.
pub open spec fn row_fields(e: (Seq<char>, Seq<char>), h: int, l: int, n: nat) -> Seq<Seq<char>> {
    Seq::new(n, |c: int| if c == l { e.1 } else if c == h { e.0 } else { Seq::empty() })
}

/// The CSV bytes of the rows for the first `k` entries.
pub open spec fn encoded_rows(
    data: Seq<(Seq<char>, Seq<char>)>,
    h: int,
    l: int,
    n: nat,
    k: nat,
) -> Option<Seq<u8>>
    decreases k,
{
    if k == 0 {
        Some(Seq::empty())
    } else {
        match (encoded_rows(data, h, l, n, (k - 1) as nat), csv_line_of(row_fields(data[k - 1], h, l, n))) {
            (Some(a), Some(b)) => Some(a + b),
            _ => None,
        }
    }
}

/// The bytes to append to a dictionary file (`None`: the file does not exist
/// yet) so that it holds `data` as new rows.
pub open spec fn appended_bytes(data: Seq<(Seq<char>, Seq<char>)>, existing: Option<Seq<u8>>) -> Result<
    Seq<u8>,
    DictionaryError,
> {
    match file_after_create(existing) {
        None => Err(DictionaryError::EncodingFailed),
        Some(content) => {
            let created = if existing is None { content } else { Seq::empty() };
            match csv_header_of(content) {
                None => Err(DictionaryError::MalformedCsv),
                Some(header) => match header_columns(header) {
                    None => Err(DictionaryError::MissingColumns),
                    Some((h, l)) => if data.len() == 0 {
                        Ok(created)
                    } else {
                        match encoded_rows(data, h, l, header.len(), data.len()) {
                            None => Err(DictionaryError::EncodingFailed),
                            Some(rows) => Ok(created + newline_fix(content) + rows),
                        }
                    },
                },
            }
        },
    }
}

/// The bytes of an optional file.
pub open spec fn bytes_option(v: Option<Vec<u8>>) -> Option<Seq<u8>> {
    match v {
        Some(v) => Some(v@),
        None => None,
    }
}

/// Once a row cannot be written, no longer run of rows can.
proof fn lemma_encoded_rows_fail(
    data: Seq<(Seq<char>, Seq<char>)>,
    h: int,
    l: int,
    n: nat,
    j: nat,
    k: nat,
)
    requires
        j <= k,
        encoded_rows(data, h, l, n, j) is None,
    ensures
        encoded_rows(data, h, l, n, k) is None,
    decreases k - j,
{
    if j < k {
        lemma_encoded_rows_fail(data, h, l, n, j, (k - 1) as nat);
    }
}

/// The fields of the row for one entry.
fn build_row(hash: &String, link: &String, h: usize, l: usize, n: usize) -> (r: Vec<String>)
    ensures
        strings_view(r@) == row_fields((hash@, link@), h as int, l as int, n as nat),
{
    let mut row: Vec<String> = Vec::new();
    let mut c: usize = 0;
    while c < n
        invariant
            c <= n,
            strings_view(row@) == row_fields((hash@, link@), h as int, l as int, n as nat).subrange(
                0,
                c as int,
            ),
        decreases n - c,
    {
        let field = if c == l {
            link.clone()
        } else if c == h {
            hash.clone()
        } else {
            String::new()
        };
        let ghost before = row@;
        row.push(field);
        proof {
            assert(strings_view(row@) =~= strings_view(before).push(field@));
            assert(row_fields((hash@, link@), h as int, l as int, n as nat).subrange(0, c + 1)
                =~= row_fields((hash@, link@), h as int, l as int, n as nat).subrange(
                0,
                c as int,
            ).push(field@));
        }
        c = c + 1;
    }
    proof {
        assert(strings_view(row@) =~= row_fields((hash@, link@), h as int, l as int, n as nat));
    }
    row
}

/// Computes the bytes that add `data` to a CSV dictionary.
///
/// `existing` is the file as it is, `None` when there is none yet; the
/// result is what to append to it (creating it first when needed). A new
/// file starts with the header `hash,link`. The columns are found as when
/// loading, and the file must have them even when `data` is empty. When rows
/// follow a file that does not end with a newline, one is written first, so
/// the first new row starts on its own line. Each row has as many fields as
/// the header, the fingerprint and link in their columns, the rest empty.
pub fn add_entry_to_data_file(data: Vec<(String, String)>, existing: Option<Vec<u8>>) -> (r: Result<
    Vec<u8>,
    DictionaryError,
>)
    ensures
        match r {
            Ok(bytes) => appended_bytes(pairs_view(data@), bytes_option(existing)) == Ok::<
                Seq<u8>,
                DictionaryError,
            >(bytes@),
            Err(e) => appended_bytes(pairs_view(data@), bytes_option(existing)) == Err::<
                Seq<u8>,
                DictionaryError,
            >(e),
        },
{
    let ghost dv = pairs_view(data@);
    let ghost ev = bytes_option(existing);
    let created = existing.is_none();
    let content: Vec<u8> = match existing {
        Some(c) => c,
        None => {
            let mut header: Vec<String> = Vec::new();
            header.push(String::from_str("hash"));
            header.push(String::from_str("link"));
            proof {
                assert(strings_view(header@) =~= canonical_header());
            }
            match csv_line(&header) {
                Some(bytes) => bytes,
                None => return Err(DictionaryError::EncodingFailed),
            }
        },
    };
    assert(file_after_create(ev) == Some(content@));
    let fields = match csv_header(content.as_slice()) {
        Some(f) => f,
        None => return Err(DictionaryError::MalformedCsv),
    };
    let (h, l) = match find_columns(&fields) {
        Some(c) => c,
        None => return Err(DictionaryError::MissingColumns),
    };
    let n = fields.len();
    let mut out: Vec<u8> = Vec::new();
    if created {
        out = content.clone();
    }
    if data.len() == 0 {
        return Ok(out);
    }
    let len = content.len();
    if len > 0 && content[len - 1] != 10u8 {
        out.push(10u8);
    }
    let ghost start = out@;
    let ghost created_part: Seq<u8> = if ev is None {
        content@
    } else {
        Seq::empty()
    };
    assert(start == created_part + newline_fix(content@));
    assert(appended_bytes(dv, ev) == match encoded_rows(dv, h as int, l as int, n as nat, dv.len()) {
        None => Err(DictionaryError::EncodingFailed),
        Some(rows) => Ok::<Seq<u8>, DictionaryError>(created_part + newline_fix(content@) + rows),
    });
    let mut k: usize = 0;
    while k < data.len()
        invariant
            dv == pairs_view(data@),
            ev == bytes_option(existing),
            n == strings_view(fields@).len(),
            k <= data@.len(),
            appended_bytes(dv, ev) == match encoded_rows(dv, h as int, l as int, n as nat, dv.len()) {
                None => Err(DictionaryError::EncodingFailed),
                Some(rows) => Ok::<Seq<u8>, DictionaryError>(start + rows),
            },
            encoded_rows(dv, h as int, l as int, n as nat, k as nat) matches Some(rows) && out@
                == start + rows,
        decreases data@.len() - k,
    {
        let row = build_row(&data[k].0, &data[k].1, h, l, n);
        assert(dv[k as int] == (data@[k as int].0@, data@[k as int].1@));
        let line = match csv_line(&row) {
            Some(line) => line,
            None => {
                proof {
                    assert(csv_line_of(row_fields(dv[k as int], h as int, l as int, n as nat)) is None);
                    assert(encoded_rows(dv, h as int, l as int, n as nat, (k + 1) as nat) is None);
                    lemma_encoded_rows_fail(dv, h as int, l as int, n as nat, (k + 1) as nat, dv.len());
                }
                return Err(DictionaryError::EncodingFailed);
            },
        };
        let mut line = line;
        let ghost added = line@;
        out.append(&mut line);
        proof {
            let prev = encoded_rows(dv, h as int, l as int, n as nat, k as nat)->Some_0;
            assert(out@ =~= start + (prev + added));
        }
        k = k + 1;
    }
    Ok(out)
}

/// Whether a file extension marks a CSV dictionary: it is exactly `csv`.
pub fn is_dictionary_extension(extension: &str) -> (r: bool)
    ensures
        r == (extension@ == "csv"@),
{
    extension.to_owned() == String::from_str("csv")
}

} // verus!
