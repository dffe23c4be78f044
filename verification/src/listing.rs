//! Storefront listings, output rows, and the CSV rendering of rows.
use vstd::prelude::*;
use crate::text::{or_empty, or_empty_spec};

verus! {

/// The fields extracted from one storefront listing, each already
/// defaulted to the empty string when its node or attribute was missing.
pub struct Listing {
    pub name: String,
    pub published_date: String,
    pub discounted_price: String,
    pub review_attr: String,
    pub app_id: String,
}

/// The mathematical value of a [`Listing`].
pub ghost struct ListingModel {
    pub name: Seq<char>,
    pub published_date: Seq<char>,
    pub discounted_price: Seq<char>,
    pub review_attr: Seq<char>,
    pub app_id: Seq<char>,
}

impl View for Listing {
    type V = ListingModel;

    open spec fn view(&self) -> ListingModel {
        ListingModel {
            name: self.name@,
            published_date: self.published_date@,
            discounted_price: self.discounted_price@,
            review_attr: self.review_attr@,
            app_id: self.app_id@,
        }
    }
}

impl Listing {
    /// Builds a listing from raw extraction results, substituting the
    /// empty string for every absent field. Extraction never fails a
    /// listing; absence only empties the field.
    pub fn from_parts(
        name: Option<String>,
        published_date: Option<String>,
        discounted_price: Option<String>,
        review_attr: Option<String>,
        app_id: Option<String>,
    ) -> (r: Listing)
        ensures
            r@.name == or_empty_spec(name),
            r@.published_date == or_empty_spec(published_date),
            r@.discounted_price == or_empty_spec(discounted_price),
            r@.review_attr == or_empty_spec(review_attr),
            r@.app_id == or_empty_spec(app_id),
    {
        Listing {
            name: or_empty(name),
            published_date: or_empty(published_date),
            discounted_price: or_empty(discounted_price),
            review_attr: or_empty(review_attr),
            app_id: or_empty(app_id),
        }
    }
}

/// One output row, in the column order of the export.
#[derive(Debug, PartialEq, Eq)]
pub struct Row {
    pub name: String,
    pub published_date: String,
    pub price: String,
    pub reviews: String,
    pub hours: String,
    pub app_id: String,
    pub genre: String,
    pub developer: String,
}

/// The mathematical value of a [`Row`].
pub ghost struct RowModel {
    pub name: Seq<char>,
    pub published_date: Seq<char>,
    pub price: Seq<char>,
    pub reviews: Seq<char>,
    pub hours: Seq<char>,
    pub app_id: Seq<char>,
    pub genre: Seq<char>,
    pub developer: Seq<char>,
}

impl View for Row {
    type V = RowModel;

    open spec fn view(&self) -> RowModel {
        RowModel {
            name: self.name@,
            published_date: self.published_date@,
            price: self.price@,
            reviews: self.reviews@,
            hours: self.hours@,
            app_id: self.app_id@,
            genre: self.genre@,
            developer: self.developer@,
        }
    }
}

impl DeepView for Row {
    type V = RowModel;

    open spec fn deep_view(&self) -> RowModel {
        self@
    }
}

/// A row's fields in column order.
pub open spec fn row_fields(m: RowModel) -> Seq<Seq<char>> {
    seq![
        m.name,
        m.published_date,
        m.price,
        m.reviews,
        m.hours,
        m.app_id,
        m.genre,
        m.developer,
    ]
}

impl Row {
    /// The row's fields in column order, as they are written out.
    pub fn fields(&self) -> (r: Vec<String>)
        ensures
            r.deep_view() == row_fields(self@),
    {
        let mut v: Vec<String> = Vec::new();
        v.push(self.name.clone());
        v.push(self.published_date.clone());
        v.push(self.price.clone());
        v.push(self.reviews.clone());
        v.push(self.hours.clone());
        v.push(self.app_id.clone());
        v.push(self.genre.clone());
        v.push(self.developer.clone());
        proof {
            assert(v.deep_view() =~= row_fields(self@));
        }
        v
    }
}

/// The fixed eight-column header of the export.
pub open spec fn header_fields() -> Seq<Seq<char>> {
    seq![
        "Name"@,
        "Published_Date"@,
        "Price"@,
        "Reviews"@,
        "Hours_on_Record"@,
        "App_Id"@,
        "Genre"@,
        "Developer"@,
    ]
}

/// Builds the header row that is written once before any data row.
pub fn csv_header() -> (r: Vec<String>)
    ensures
        r.deep_view() == header_fields(),
{
    let mut v: Vec<String> = Vec::new();
    v.push(String::from_str("Name"));
    v.push(String::from_str("Published_Date"));
    v.push(String::from_str("Price"));
    v.push(String::from_str("Reviews"));
    v.push(String::from_str("Hours_on_Record"));
    v.push(String::from_str("App_Id"));
    v.push(String::from_str("Genre"));
    v.push(String::from_str("Developer"));
    proof {
        assert(v.deep_view() =~= header_fields());
    }
    v
}

/// The CSV encoding of one record: the fields, quoted where the format
/// requires it, joined by commas and closed by a newline. The encoding
/// is the csv crate's and depends on the fields alone.
pub uninterp spec fn csv_record_of(fields: Seq<Seq<char>>) -> Seq<char>;

/// Relies on the csv crate: `Writer::write_record` encodes one record
/// with comma delimiters, quoting as needed, and a `\n` terminator;
/// `Writer::into_inner` hands back the written bytes. On a fresh
/// default writer over a `Vec` the calls cannot fail: the record-length
/// check passes trivially on the first record, the `Vec` sink never
/// errors, `into_inner` only flushes, and the encoding of UTF-8 fields
/// is UTF-8.
#[verifier::external_body]
fn csv_encode_record(fields: &Vec<String>) -> (r: String)
    ensures
        r@ == csv_record_of(fields.deep_view()),
{
    let mut w = csv::Writer::from_writer(Vec::new());
    w.write_record(fields.iter()).expect("a record write into memory does not fail");
    let bytes = w.into_inner().expect("flushing into memory does not fail");
    String::from_utf8(bytes).expect("the encoding of UTF-8 fields is UTF-8")
}

/// Renders one data row as a CSV record.
pub fn render_row(row: &Row) -> (r: String)
    ensures
        r@ == csv_record_of(row_fields(row@)),
{
    let fields = row.fields();
    csv_encode_record(&fields)
}

/// Renders the header as a CSV record.
pub fn render_header() -> (r: String)
    ensures
        r@ == csv_record_of(header_fields()),
{
    let fields = csv_header();
    csv_encode_record(&fields)
}

} // verus!
