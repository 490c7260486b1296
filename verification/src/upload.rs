//! The course of a whole submission: each field is matched against the
//! form, its content is counted against the form's limits, and the contents
//! of all fields are merged into one value.

use vstd::prelude::*;
use crate::consolidate::{consolidate, consolidated, fields_view, well_formed};
use crate::error::Error;
use crate::name::{parse_multipart_name, parsed_name};
use crate::schema::{FieldTerminator, Form};
use crate::shape::{lemma_valid_fields_merge, valid_under};
use crate::types::{path_view, ContentDisposition, MultipartContent, NamePart, Segment, Tree, Value};

verus! {

/// What is known of a field before its bytes are read.
pub struct FieldPlan<'a, G> {
    pub name: Vec<NamePart>,
    pub terminator: FieldTerminator<'a, G>,
    pub filename: Option<String>,
}

/// Resolves a field before its bytes are read.  A field without a name
/// fails with `Error::Field`, a name that opens with an array placeholder
/// with `Error::ContentDisposition`, and a path that the form does not hold
/// with `Error::FieldType`.  Otherwise the plan holds the path, the node
/// that it ends in and the field's filename.
pub fn handle_stream_field<'a, G>(
    content_disposition: ContentDisposition,
    form: &'a Form<G>,
) -> (r: Result<FieldPlan<'a, G>, Error>)
    ensures
        match content_disposition.name {
            None => r is Err && r->Err_0 == Error::Field,
            Some(name) => if parsed_name(name@)[0] is Index {
                r is Err && r->Err_0 == Error::ContentDisposition
            } else {
                match form.terminator(parsed_name(name@)) {
                    None => r is Err && r->Err_0 == Error::FieldType,
                    Some(terminator) => r is Ok && r->Ok_0.terminator == terminator && path_view(
                        r->Ok_0.name@,
                    ) == parsed_name(name@) && r->Ok_0.filename == content_disposition.filename,
                }
            },
        },
{
    let name = match content_disposition.name {
        Some(name) => name,
        None => {
            return Err(Error::Field);
        },
    };
    let name = match parse_multipart_name(name) {
        Ok(name) => name,
        Err(e) => {
            return Err(e);
        },
    };
    match form.valid_field(&name) {
        Some(terminator) => Ok(
            FieldPlan { name, terminator, filename: content_disposition.filename },
        ),
        None => Err(Error::FieldType),
    }
}

/// The number of files among the first `n` contents.
pub open spec fn files_among(contents: Seq<Tree>, n: nat) -> nat
    decreases n,
{
    if n == 0 || n > contents.len() {
        0
    } else {
        files_among(contents, (n - 1) as nat) + if contents[n - 1] is File {
            1nat
        } else {
            0nat
        }
    }
}

/// Whether the content at place `i` is turned away: a file where it is at
/// least the `max_files`-th file so far, any other content where it is at
/// least the `max_fields`-th of its kind so far.  So a form takes one file
/// fewer than `max_files`, and one scalar field fewer than `max_fields`.
pub open spec fn turned_away(contents: Seq<Tree>, i: int, max_files: u32, max_fields: u32) -> bool {
    if contents[i] is File {
        files_among(contents, (i + 1) as nat) >= max_files
    } else {
        (i + 1) - files_among(contents, (i + 1) as nat) >= max_fields
    }
}

/// The error with which a content is turned away.
pub open spec fn count_error(content: Tree) -> Error {
    if content is File {
        Error::FileCount
    } else {
        Error::FieldCount
    }
}

/// The contents of a list of fields.
pub open spec fn contents_of(fields: Seq<(Vec<NamePart>, MultipartContent)>) -> Seq<Tree> {
    Seq::new(fields.len(), |i: int| fields[i].1@)
}

/// The fields taken so far, with the number of files and of other fields
/// among them.
pub struct Accepted {
    pub fields: Vec<(Vec<NamePart>, MultipartContent)>,
    pub file_count: u32,
    pub field_count: u32,
}

impl Accepted {
    /// The contents of the fields taken so far.
    pub open spec fn contents(&self) -> Seq<Tree> {
        contents_of(self.fields@)
    }

    /// The counters say what the list holds, and each kind stays under its
    /// limit.
    pub open spec fn wf(&self, max_files: u32, max_fields: u32) -> bool {
        let files = files_among(self.contents(), self.fields@.len());
        &&& self.file_count == files
        &&& self.field_count == self.fields@.len() - files
        &&& (files == 0 || files < max_files)
        &&& (self.fields@.len() - files == 0 || self.fields@.len() - files < max_fields)
    }

    /// Nothing taken yet.
    pub fn new() -> (r: Accepted)
        ensures
            r.fields@.len() == 0,
            r.file_count == 0,
            r.field_count == 0,
            forall|max_files: u32, max_fields: u32| r.wf(max_files, max_fields),
    {
        Accepted { fields: Vec::new(), file_count: 0, field_count: 0 }
    }

    /// Counts one finished field and takes it.  A file is turned away with
    /// `Error::FileCount` exactly where it is at least the `max_files`-th
    /// file, any other content with `Error::FieldCount` exactly where it is
    /// at least the `max_fields`-th of its kind.
    pub fn accept(
        self,
        name: Vec<NamePart>,
        content: MultipartContent,
        max_files: u32,
        max_fields: u32,
    ) -> (r: Result<Accepted, Error>)
        requires
            self.wf(max_files, max_fields),
        ensures
            match r {
                Ok(next) => next.wf(max_files, max_fields) && next.fields@ == self.fields@.push(
                    (name, content),
                ) && !turned_away(
                    next.contents(),
                    self.fields@.len() as int,
                    max_files,
                    max_fields,
                ),
                Err(e) => e == count_error(content@) && turned_away(
                    self.contents().push(content@),
                    self.fields@.len() as int,
                    max_files,
                    max_fields,
                ),
            },
    {
        let ghost before = self.contents();
        let ghost after = before.push(content@);
        proof {
            lemma_files_among_prefix(before, after, before.len());
        }
        let mut next = self;
        if content.is_file() {
            if next.file_count >= max_files || next.file_count + 1 >= max_files {
                return Err(Error::FileCount);
            }
            next.file_count = next.file_count + 1;
        } else {
            if next.field_count >= max_fields || next.field_count + 1 >= max_fields {
                return Err(Error::FieldCount);
            }
            next.field_count = next.field_count + 1;
        }
        next.fields.push((name, content));
        assert(next.contents() =~= after);
        Ok(next)
    }
}

/// The count of files among the first `n` contents depends on those alone.
pub proof fn lemma_files_among_prefix(a: Seq<Tree>, b: Seq<Tree>, n: nat)
    requires
        n <= a.len(),
        n <= b.len(),
        forall|i: int| 0 <= i < n ==> a[i] == b[i],
    ensures
        files_among(a, n) == files_among(b, n),
    decreases n,
{
    if n > 0 {
        lemma_files_among_prefix(a, b, (n - 1) as nat);
    }
}

/// A form takes fewer files than `max_files` and fewer scalar fields than
/// `max_fields`: with a limit of `n`, the `n`-th item of a kind is the one
/// that is turned away.
pub proof fn lemma_limits_are_exclusive(accepted: Accepted, max_files: u32, max_fields: u32)
    requires
        accepted.wf(max_files, max_fields),
    ensures
        max_files > 0 ==> accepted.file_count <= max_files - 1,
        max_fields > 0 ==> accepted.field_count <= max_fields - 1,
        max_files == 0 ==> accepted.file_count == 0,
        max_fields == 0 ==> accepted.field_count == 0,
{
}

/// The fields taken of the first `n` results of a submission, or the error
/// that ended it: the first result that is an error, or the first content
/// that is turned away.
pub open spec fn taken(
    results: Seq<Result<(Vec<NamePart>, MultipartContent), Error>>,
    n: nat,
    max_files: u32,
    max_fields: u32,
) -> Result<Seq<(Vec<NamePart>, MultipartContent)>, Error>
    decreases n,
{
    if n == 0 || n > results.len() {
        Ok(Seq::empty())
    } else {
        match taken(results, (n - 1) as nat, max_files, max_fields) {
            Err(e) => Err(e),
            Ok(fields) => match results[n - 1] {
                Err(e) => Err(e),
                Ok(field) => {
                    let longer = fields.push(field);
                    if turned_away(contents_of(longer), fields.len() as int, max_files, max_fields) {
                        Err(count_error(field.1@))
                    } else {
                        Ok(longer)
                    }
                },
            },
        }
    }
}

/// What has ended a submission is not undone by what follows.
pub proof fn lemma_taken_fails(
    results: Seq<Result<(Vec<NamePart>, MultipartContent), Error>>,
    n: nat,
    m: nat,
    max_files: u32,
    max_fields: u32,
)
    requires
        taken(results, n, max_files, max_fields) is Err,
        n <= m <= results.len(),
    ensures
        taken(results, m, max_files, max_fields) == taken(results, n, max_files, max_fields),
    decreases m,
{
    if n < m {
        lemma_taken_fails(results, n, (m - 1) as nat, max_files, max_fields);
    }
}

/// How a submission ends: with the error that ended the taking of its
/// fields, or with the merge of the fields taken, or with `Error::Merge`
/// where they do not merge.
pub open spec fn outcome(
    results: Seq<Result<(Vec<NamePart>, MultipartContent), Error>>,
    max_files: u32,
    max_fields: u32,
) -> Result<Tree, Error> {
    match taken(results, results.len(), max_files, max_fields) {
        Err(e) => Err(e),
        Ok(fields) => match consolidated(fields_view(fields), fields.len()) {
            Some(tree) => Ok(tree),
            None => Err(Error::Merge),
        },
    }
}

/// Runs a submission over the results of its fields, in the order in which
/// they were finished.  The first failed field ends it with that field's
/// error, and the first content over the form's counts with
/// `Error::FileCount` or `Error::FieldCount`; no value is returned then.
/// Otherwise the fields are merged into one value.
pub fn handle_multipart<G>(
    results: Vec<Result<(Vec<NamePart>, MultipartContent), Error>>,
    form: &Form<G>,
) -> (r: Result<Value, Error>)
    ensures
        match outcome(results@, form.max_files, form.max_fields) {
            Ok(tree) => r is Ok && r->Ok_0@ == tree,
            Err(e) => r is Err && r->Err_0 == e,
        },
        r is Ok ==> well_formed(r->Ok_0@),
{
    let ghost all = results@;
    let ghost mut done: nat = 0;
    let mut rest = results;
    let mut accepted = Accepted::new();
    assert(accepted.fields@ =~= Seq::empty());
    while rest.len() > 0
        invariant
            all == results@,
            done + rest@.len() == all.len(),
            rest@ =~= all.subrange(done as int, all.len() as int),
            accepted.wf(form.max_files, form.max_fields),
            taken(all, done, form.max_files, form.max_fields) == Ok::<
                Seq<(Vec<NamePart>, MultipartContent)>,
                Error,
            >(accepted.fields@),
        decreases rest.len(),
    {
        let result = rest.remove(0);
        assert(result == all[done as int]);
        let ghost fields_before = accepted.fields@;
        match result {
            Err(e) => {
                proof {
                    lemma_taken_fails(all, done + 1, all.len(), form.max_files, form.max_fields);
                }
                return Err(e);
            },
            Ok((name, content)) => {
                assert(contents_of(fields_before.push((name, content))) =~= contents_of(
                    fields_before,
                ).push(content@));
                match accepted.accept(name, content, form.max_files, form.max_fields) {
                    Ok(next) => {
                        accepted = next;
                    },
                    Err(e) => {
                        proof {
                            lemma_taken_fails(
                                all,
                                done + 1,
                                all.len(),
                                form.max_files,
                                form.max_fields,
                            );
                        }
                        return Err(e);
                    },
                }
            },
        }
        proof {
            done = done + 1;
        }
    }
    consolidate(accepted.fields)
}

/// A submission that is not ended takes every one of its fields, and among
/// them fewer files than `max_files` and fewer scalar fields than
/// `max_fields`: of `max_files` files the last is turned away.
pub proof fn lemma_taken_stays_under_limits(
    results: Seq<Result<(Vec<NamePart>, MultipartContent), Error>>,
    n: nat,
    max_files: u32,
    max_fields: u32,
)
    requires
        n <= results.len(),
    ensures
        match taken(results, n, max_files, max_fields) {
            Err(_) => true,
            Ok(fields) => {
                let files = files_among(contents_of(fields), n);
                &&& fields.len() == n
                &&& forall|i: int|
                    0 <= i < n ==> results[i] == Ok::<(Vec<NamePart>, MultipartContent), Error>(
                        #[trigger] fields[i],
                    )
                &&& (files == 0 || files < max_files)
                &&& (n - files == 0 || n - files < max_fields)
            },
        },
    decreases n,
{
    if n > 0 {
        lemma_taken_stays_under_limits(results, (n - 1) as nat, max_files, max_fields);
        match taken(results, (n - 1) as nat, max_files, max_fields) {
            Err(_) => {},
            Ok(fields) => match results[n - 1] {
                Err(_) => {},
                Ok(field) => {
                    let longer = fields.push(field);
                    lemma_files_among_prefix(
                        contents_of(fields),
                        contents_of(longer),
                        (n - 1) as nat,
                    );
                },
            },
        }
    }
}

/// The contents of the fields of a submission in which every field was
/// finished.
pub open spec fn result_contents(
    results: Seq<Result<(Vec<NamePart>, MultipartContent), Error>>,
) -> Seq<Tree> {
    Seq::new(results.len(), |i: int| results[i]->Ok_0.1@)
}

/// Where every field was finished, the counts alone decide whether a
/// submission is taken: it is taken exactly where it holds no file or fewer
/// files than `max_files`, and no scalar field or fewer scalar fields than
/// `max_fields`.  Files count against `max_files` alone and scalar fields
/// against `max_fields` alone.
pub proof fn lemma_taken_iff_under_limits(
    results: Seq<Result<(Vec<NamePart>, MultipartContent), Error>>,
    n: nat,
    max_files: u32,
    max_fields: u32,
)
    requires
        n <= results.len(),
        forall|i: int| 0 <= i < n ==> (#[trigger] results[i]) is Ok,
    ensures
        ({
            let files = files_among(result_contents(results), n);
            taken(results, n, max_files, max_fields) is Ok <==> (files == 0 || files < max_files)
                && (n - files == 0 || n - files < max_fields)
        }),
        files_among(result_contents(results), n) <= n,
    decreases n,
{
    if n > 0 {
        let shorter = (n - 1) as nat;
        let all = result_contents(results);
        lemma_taken_iff_under_limits(results, shorter, max_files, max_fields);
        lemma_taken_stays_under_limits(results, shorter, max_files, max_fields);
        match taken(results, shorter, max_files, max_fields) {
            Err(_) => {},
            Ok(fields) => {
                let field = results[n - 1]->Ok_0;
                let longer = fields.push(field);
                assert forall|i: int| 0 <= i < n implies contents_of(longer)[i] == all[i] by {
                    if i < n - 1 {
                        assert(results[i] == Ok::<(Vec<NamePart>, MultipartContent), Error>(
                            fields[i],
                        ));
                    }
                }
                lemma_files_among_prefix(contents_of(longer), all, n);
                lemma_files_among_prefix(contents_of(longer), all, shorter);
            },
        }
    }
}

/// The fields of a submission in which every field was finished.
pub open spec fn payloads(
    results: Seq<Result<(Vec<NamePart>, MultipartContent), Error>>,
) -> Seq<(Vec<NamePart>, MultipartContent)> {
    Seq::new(results.len(), |i: int| results[i]->Ok_0)
}

/// Where every field was finished, a submission is ended only by a count:
/// with `Error::FileCount` only where it holds a file, with
/// `Error::FieldCount` only where it holds a scalar field.
pub proof fn lemma_taken_error_is_a_count(
    results: Seq<Result<(Vec<NamePart>, MultipartContent), Error>>,
    n: nat,
    max_files: u32,
    max_fields: u32,
)
    requires
        n <= results.len(),
        forall|i: int| 0 <= i < n ==> (#[trigger] results[i]) is Ok,
    ensures
        match taken(results, n, max_files, max_fields) {
            Ok(_) => true,
            Err(e) => {
                let files = files_among(result_contents(results), n);
                &&& e == Error::FileCount || e == Error::FieldCount
                &&& e == Error::FileCount ==> files > 0
                &&& e == Error::FieldCount ==> n - files > 0
            },
        },
        files_among(result_contents(results), n) <= n,
    decreases n,
{
    if n > 0 {
        lemma_taken_error_is_a_count(results, (n - 1) as nat, max_files, max_fields);
    }
}

/// A submission in which every field was finished and is valid under the
/// form succeeds exactly where it holds no file or fewer files than
/// `max_files`, and no scalar field or fewer scalar fields than
/// `max_fields`.  Otherwise it fails with `Error::FileCount` or
/// `Error::FieldCount`, of which the first needs a file and the second a
/// scalar field.
pub proof fn lemma_valid_submission_succeeds_under_limits<G>(
    form: Form<G>,
    results: Seq<Result<(Vec<NamePart>, MultipartContent), Error>>,
)
    requires
        forall|i: int| 0 <= i < results.len() ==> (#[trigger] results[i]) is Ok,
        valid_under(form, fields_view(payloads(results))),
    ensures
        ({
            let n = results.len();
            let files = files_among(result_contents(results), n);
            let ending = outcome(results, form.max_files, form.max_fields);
            &&& ending is Ok <==> (files == 0 || files < form.max_files) && (n - files == 0 || n
                - files < form.max_fields)
            &&& ending is Err ==> ending->Err_0 == Error::FileCount || ending->Err_0
                == Error::FieldCount
            &&& ending is Err && ending->Err_0 == Error::FileCount ==> files > 0
            &&& ending is Err && ending->Err_0 == Error::FieldCount ==> n - files > 0
        }),
{
    let n = results.len();
    lemma_taken_iff_under_limits(results, n, form.max_files, form.max_fields);
    lemma_taken_error_is_a_count(results, n, form.max_files, form.max_fields);
    lemma_taken_stays_under_limits(results, n, form.max_files, form.max_fields);
    match taken(results, n, form.max_files, form.max_fields) {
        Err(_) => {},
        Ok(fields) => {
            assert(fields =~= payloads(results));
            lemma_valid_fields_merge(form, fields_view(fields), fields.len());
        },
    }
}

} // verus!
