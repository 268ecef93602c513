//! Dataset registry and ingestion core of the retrieval engine: dataset
//! records and their file locations, the chunk/embedding alignment check,
//! and the bounded context assembled from stored chunks.

use vstd::prelude::*;
use crate::numfmt::{spec_decimal, u64_to_decimal};
use crate::textutil::{lower_seq, spec_trim, str_eq, str_eq_ignore_ascii_case, trim_str};

verus! {

/// One dataset of the registry.
#[derive(Debug)]
pub struct DatasetInfo {
    pub id: String,
    pub name: String,
    pub created_at: String,
    pub updated_at: String,
}

/// Result of one ingestion: how many chunks were stored.
#[derive(Clone, Copy, PartialEq, Eq, Structural, Debug)]
pub struct IngestResult {
    pub chunks: usize,
}

/// Errors of the retrieval engine.
#[derive(Clone, Copy, PartialEq, Eq, Structural, Debug)]
pub enum RagError {
    /// The embedding endpoint returned a vector count different from the
    /// chunk count; nothing is persisted.
    EmbeddingSizeMismatch,
    /// The dataset id is not in the registry.
    NotFound,
}

pub struct IngestTextArgs {
    pub dataset_id: String,
    pub text: String,
}

pub struct IngestFileArgs {
    pub dataset_id: String,
    pub file_path: String,
}

pub struct IngestFolderArgs {
    pub dataset_id: String,
    pub folder_path: String,
}

pub struct IngestUrlArgs {
    pub dataset_id: String,
    pub url: String,
}

pub struct ScrapeUrlArgs {
    pub dataset_id: String,
    pub base_url: String,
    pub max_depth: Option<usize>,
}

pub struct RagQueryArgs {
    pub dataset_id: String,
    pub query: String,
    pub k: usize,
}

/// The registry file under the retrieval root.
pub fn registry_path(root: &str) -> (r: String)
    ensures
        r@ == root@ + "/datasets.json"@,
{
    String::from_str(root).concat("/datasets.json")
}

/// The directory of one dataset under the retrieval root.
pub fn dataset_dir(root: &str, id: &str) -> (r: String)
    ensures
        r@ == root@ + "/"@ + id@,
{
    String::from_str(root).concat("/").concat(id)
}

/// The chunk store of one dataset.
pub fn chunks_json_path(root: &str, id: &str) -> (r: String)
    ensures
        r@ == root@ + "/"@ + id@ + "/chunks.json"@,
{
    dataset_dir(root, id).concat("/chunks.json")
}

/// The embedding store of one dataset.
pub fn embeds_json_path(root: &str, id: &str) -> (r: String)
    ensures
        r@ == root@ + "/"@ + id@ + "/embeddings.json"@,
{
    dataset_dir(root, id).concat("/embeddings.json")
}

/// The id of a dataset created at the given epoch instant.
pub fn dataset_id_for(epoch_ms: u64) -> (r: String)
    ensures
        r@ == "ds_"@ + spec_decimal(epoch_ms as nat),
{
    String::from_str("ds_").concat(u64_to_decimal(epoch_ms).as_str())
}

fn clone_info(d: &DatasetInfo) -> (r: DatasetInfo)
    ensures
        r == *d,
{
    DatasetInfo {
        id: d.id.clone(),
        name: d.name.clone(),
        created_at: d.created_at.clone(),
        updated_at: d.updated_at.clone(),
    }
}

/// Appends a fresh dataset to the registry: its id is derived from the
/// creation instant, and both timestamps are the creation time.
pub fn create_dataset_entry(list: Vec<DatasetInfo>, name: String, epoch_ms: u64, now_iso: String) -> (r: (
    Vec<DatasetInfo>,
    DatasetInfo,
))
    ensures
        r.0@.len() == list@.len() + 1,
        forall|i: int| 0 <= i < list@.len() ==> r.0@[i] == list@[i],
        r.0@[list@.len() as int] == r.1,
        r.1.id@ == "ds_"@ + spec_decimal(epoch_ms as nat),
        r.1.name@ == name@,
        r.1.created_at@ == now_iso@,
        r.1.updated_at@ == now_iso@,
{
    let id = dataset_id_for(epoch_ms);
    let info = DatasetInfo {
        id: id.clone(),
        name,
        created_at: now_iso.clone(),
        updated_at: now_iso,
    };
    let copy = clone_info(&info);
    let mut out = list;
    out.push(copy);
    proof {
        assert(out@[out@.len() - 1] == info);
    }
    (out, info)
}

/// The registry without the datasets of a given id, in order.
pub open spec fn registry_without(list: Seq<DatasetInfo>, id: Seq<char>) -> Seq<DatasetInfo>
    decreases list.len(),
{
    if list.len() == 0 {
        Seq::empty()
    } else {
        let rest = registry_without(list.drop_last(), id);
        if list.last().id@ != id {
            rest.push(list.last())
        } else {
            rest
        }
    }
}

/// Removes every dataset of the given id from the registry, keeping the
/// order of the rest.
pub fn remove_dataset(list: Vec<DatasetInfo>, id: &str) -> (r: Vec<DatasetInfo>)
    ensures
        r@ == registry_without(list@, id@),
{
    let n = list.len();
    let mut out: Vec<DatasetInfo> = Vec::new();
    let mut i: usize = 0;
    proof {
        assert(registry_without(list@.take(0), id@) =~= out@);
    }
    while i < n
        invariant
            i <= n,
            n == list@.len(),
            out@ == registry_without(list@.take(i as int), id@),
        decreases n - i,
    {
        let ghost prev = list@.take(i as int);
        proof {
            assert(list@.take(i as int + 1).drop_last() =~= prev);
            assert(list@.take(i as int + 1).last() == list@[i as int]);
        }
        if !str_eq(list[i].id.as_str(), id) {
            let copy = clone_info(&list[i]);
            out.push(copy);
        }
        i += 1;
    }
    proof {
        assert(list@.take(n as int) =~= list@);
    }
    out
}

/// Whether some dataset of the registry has the given id.
pub open spec fn spec_registry_has(list: Seq<DatasetInfo>, id: Seq<char>) -> bool {
    exists|i: int| 0 <= i < list.len() && (#[trigger] list[i]).id@ == id
}

/// Whether the registry holds a dataset of the given id.
pub fn registry_has(list: &Vec<DatasetInfo>, id: &str) -> (r: bool)
    ensures
        r == spec_registry_has(list@, id@),
{
    let n = list.len();
    let mut i: usize = 0;
    while i < n
        invariant
            i <= n,
            n == list@.len(),
            forall|j: int| 0 <= j < i ==> (#[trigger] list@[j]).id@ != id@,
        decreases n - i,
    {
        if str_eq(list[i].id.as_str(), id) {
            return true;
        }
        i += 1;
    }
    false
}

/// Deletes a dataset from the registry: an unknown id is `NotFound` and the
/// registry is handed back unchanged; a known one has every entry of that id
/// removed, the order of the rest kept.
pub fn delete_dataset_entry(list: Vec<DatasetInfo>, id: &str) -> (r: Result<
    Vec<DatasetInfo>,
    (Vec<DatasetInfo>, RagError),
>)
    ensures
        match r {
            Ok(out) => spec_registry_has(list@, id@) && out@ == registry_without(list@, id@),
            Err((back, e)) => !spec_registry_has(list@, id@) && e == RagError::NotFound && back@
                == list@,
        },
{
    if registry_has(&list, id) {
        Ok(remove_dataset(list, id))
    } else {
        Err((list, RagError::NotFound))
    }
}

/// Whether an ingestion may be persisted: the embedding count must equal the
/// chunk count exactly; a mismatch is fatal and nothing is stored.
pub fn ingest_outcome(chunk_count: usize, embedding_count: usize) -> (r: Result<
    IngestResult,
    RagError,
>)
    ensures
        chunk_count == embedding_count ==> r == Ok::<IngestResult, RagError>(
            IngestResult { chunks: chunk_count },
        ),
        chunk_count != embedding_count ==> r == Err::<IngestResult, RagError>(
            RagError::EmbeddingSizeMismatch,
        ),
{
    if chunk_count == embedding_count {
        Ok(IngestResult { chunks: chunk_count })
    } else {
        Err(RagError::EmbeddingSizeMismatch)
    }
}

/// The bounded context drawn from stored chunks: chunks are appended in
/// order, each followed by the separator, until the next chunk would push
/// the running total past the cap; the result is then trimmed.
pub open spec fn spec_context(chunks: Seq<Seq<char>>, acc: Seq<char>, total: int) -> Seq<char>
    decreases chunks.len(),
{
    if chunks.len() == 0 {
        acc
    } else if total + chunks[0].len() > 3000 {
        acc
    } else {
        spec_context(
            chunks.skip(1),
            acc + chunks[0] + "\n\n---\n\n"@,
            total + chunks[0].len() + 8,
        )
    }
}

/// Builds the retrieval context handed to the model from the stored chunks,
/// capped at 3000 characters of chunk text.
pub fn build_context(chunks: &Vec<String>) -> (r: String)
    ensures
        r@ == spec_trim(spec_context(chunks@.map_values(|c: String| c@), Seq::empty(), 0)),
{
    let n = chunks.len();
    let mut acc = String::new();
    let mut total: usize = 0;
    let mut i: usize = 0;
    let ghost views = chunks@.map_values(|c: String| c@);
    proof {
        assert(views.skip(0) =~= views);
    }
    while i < n
        invariant_except_break
            i <= n,
            n == chunks@.len(),
            views == chunks@.map_values(|c: String| c@),
            total <= 3008,
            spec_context(views, Seq::empty(), 0) == spec_context(
                views.skip(i as int),
                acc@,
                total as int,
            ),
        ensures
            spec_context(views, Seq::empty(), 0) == acc@,
        decreases n - i,
    {
        proof {
            assert(views.skip(i as int)[0] == views[i as int]);
            assert(views.skip(i as int).skip(1) =~= views.skip(i as int + 1));
        }
        let clen = chunks[i].as_str().unicode_len();
        let stop = if total > 3000 {
            true
        } else {
            clen > 3000 - total
        };
        if stop {
            proof {
                assert(total + views[i as int].len() > 3000);
                assert(spec_context(views.skip(i as int), acc@, total as int) == acc@);
            }
            break;
        }
        let ghost acc_before = acc@;
        acc.append(chunks[i].as_str());
        acc.append("\n\n---\n\n");
        proof {
            assert(acc@ =~= acc_before + views[i as int] + "\n\n---\n\n"@);
            assert(spec_context(views.skip(i as int), acc_before, total as int) == spec_context(
                views.skip(i as int + 1),
                acc_before + views[i as int] + "\n\n---\n\n"@,
                total as int + views[i as int].len() + 8,
            ));
        }
        total = total + clen + 8;
        i += 1;
    }
    trim_str(acc.as_str())
}


/// One file's contribution to a folder ingestion: a header naming the file,
/// the extracted text, and a blank separator.
pub fn file_section(label: &str, text: &str) -> (r: String)
    ensures
        r@ == "\n=== File: "@ + label@ + " ===\n"@ + text@ + "\n\n"@,
{
    String::from_str("\n=== File: ").concat(label).concat(" ===\n").concat(text).concat("\n\n")
}

/// One page's contribution to a crawl ingestion: a header naming the URL,
/// the extracted text, and a blank separator.
pub fn url_section(url: &str, text: &str) -> (r: String)
    ensures
        r@ == "\n=== URL: "@ + url@ + " ===\n"@ + text@ + "\n\n"@,
{
    String::from_str("\n=== URL: ").concat(url).concat(" ===\n").concat(text).concat("\n\n")
}

/// How a file is read, by its extension.
#[derive(Clone, Copy, PartialEq, Eq, Structural, Debug)]
pub enum FileKind {
    /// Read as plain text.
    PlainText,
    /// Extracted from a PDF document.
    Pdf,
    /// Extracted from HTML markup.
    Html,
    /// Extracted from a word-processor document.
    Docx,
    /// No dedicated reader; plain text is attempted.
    Other,
}

/// The reader chosen for a lower-cased extension.
pub open spec fn spec_classify(e: Seq<char>) -> FileKind {
    if e == "txt"@ || e == "md"@ || e == "json"@ || e == "csv"@ || e == "log"@ {
        FileKind::PlainText
    } else if e == "pdf"@ {
        FileKind::Pdf
    } else if e == "html"@ || e == "htm"@ {
        FileKind::Html
    } else if e == "docx"@ {
        FileKind::Docx
    } else {
        FileKind::Other
    }
}

proof fn lemma_ext_literals_lower()
    ensures
        lower_seq("txt"@) == "txt"@,
        lower_seq("md"@) == "md"@,
        lower_seq("json"@) == "json"@,
        lower_seq("csv"@) == "csv"@,
        lower_seq("log"@) == "log"@,
        lower_seq("pdf"@) == "pdf"@,
        lower_seq("html"@) == "html"@,
        lower_seq("htm"@) == "htm"@,
        lower_seq("docx"@) == "docx"@,
{
    reveal_strlit("txt");
    reveal_strlit("md");
    reveal_strlit("json");
    reveal_strlit("csv");
    reveal_strlit("log");
    reveal_strlit("pdf");
    reveal_strlit("html");
    reveal_strlit("htm");
    reveal_strlit("docx");
    assert(lower_seq("txt"@) =~= "txt"@);
    assert(lower_seq("md"@) =~= "md"@);
    assert(lower_seq("json"@) =~= "json"@);
    assert(lower_seq("csv"@) =~= "csv"@);
    assert(lower_seq("log"@) =~= "log"@);
    assert(lower_seq("pdf"@) =~= "pdf"@);
    assert(lower_seq("html"@) =~= "html"@);
    assert(lower_seq("htm"@) =~= "htm"@);
    assert(lower_seq("docx"@) =~= "docx"@);
}

/// Chooses the reader for a file extension, case-insensitively.
pub fn classify_extension(ext: &str) -> (r: FileKind)
    ensures
        r == spec_classify(lower_seq(ext@)),
{
    proof {
        lemma_ext_literals_lower();
    }
    if str_eq_ignore_ascii_case(ext, "txt") || str_eq_ignore_ascii_case(ext, "md")
        || str_eq_ignore_ascii_case(ext, "json") || str_eq_ignore_ascii_case(ext, "csv")
        || str_eq_ignore_ascii_case(ext, "log") {
        FileKind::PlainText
    } else if str_eq_ignore_ascii_case(ext, "pdf") {
        FileKind::Pdf
    } else if str_eq_ignore_ascii_case(ext, "html") || str_eq_ignore_ascii_case(ext, "htm") {
        FileKind::Html
    } else if str_eq_ignore_ascii_case(ext, "docx") {
        FileKind::Docx
    } else {
        FileKind::Other
    }
}

/// Whether a folder walk ingests a file of this extension; others are
/// skipped silently.
pub fn folder_supported(ext: &str) -> (r: bool)
    ensures
        r == (spec_classify(lower_seq(ext@)) != FileKind::Other),
{
    proof {
        lemma_ext_literals_lower();
    }
    let k = classify_extension(ext);
    match k {
        FileKind::Other => false,
        _ => true,
    }
}

} // verus!
