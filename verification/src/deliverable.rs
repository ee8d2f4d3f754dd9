use vstd::prelude::*;
use crate::text::{
    chars_of, contains_ci, eq_at_ci, is_ws, lemma_spec_first_skip, match_at, seq_contains,
    spec_first, spec_is_ws, spec_lower, str_eq, string_from_range,
};

verus! {

/// Credentials for the file-transfer collaborator, held for the caller; the
/// engine itself never reads them.
pub struct GoogleTokens {
    pub access_token: String,
    pub refresh_token: String,
    pub id_token: String,
    pub expires_in: Option<u64>,
    pub scope: Option<String>,
    pub token_type: Option<String>,
}

/// One file of a deliverable folder listing, or one file selected for
/// download.
pub struct FileInfo {
    pub id: String,
    pub name: String,
    pub path: String,
}

/// One entry of a folder listing: identifier, display name and MIME type.
pub struct DriveEntry {
    pub id: String,
    pub name: String,
    pub mime: String,
}

/// What a validated deliverable asks to download.
pub struct ValidationResult {
    pub files_to_download: Vec<FileInfo>,
    pub folder_id: String,
}

/// Where a deliverable's files landed.
pub struct DownloadResult {
    pub temp_directory: String,
    pub downloaded_files: Vec<FileInfo>,
}

/// The MIME type of a folder entry.
pub open spec fn spec_folder_mime() -> Seq<char> {
    "application/vnd.google-apps.folder"@
}

/// The first whitespace-delimited token of the folder name: the instance the
/// deliverable belongs to.
pub open spec fn spec_instance_token(s: Seq<char>) -> Option<(int, int)> {
    match spec_first(s.len() as int, 0, |k: int| !spec_is_ws(s[k])) {
        None => None,
        Some(a) => {
            let b = match spec_first(s.len() as int, a, |k: int| spec_is_ws(s[k])) {
                Some(b) => b,
                None => s.len() as int,
            };
            Some((a, b))
        },
    }
}

/// The listing holds a non-folder entry of exactly this name.
pub open spec fn spec_has_named_file(files: Seq<DriveEntry>, name: Seq<char>) -> bool {
    exists|k: int|
        0 <= k < files.len() && (#[trigger] files[k]).name@ == name && files[k].mime@
            != spec_folder_mime()
}

/// The first entry of exactly this name, folder or not.
pub open spec fn spec_find_named(files: Seq<DriveEntry>, name: Seq<char>, i: int) -> Option<int>
    decreases files.len() - i,
    when 0 <= i <= files.len()
{
    if i >= files.len() {
        None
    } else if files[i].name@ == name {
        Some(i)
    } else {
        spec_find_named(files, name, i + 1)
    }
}

/// The lower-cased name ends with the suffix.
pub open spec fn spec_name_ends_with(e: DriveEntry, suffix: Seq<char>) -> bool {
    let ln = spec_lower(e.name@);
    ln.len() >= suffix.len() && match_at(ln, suffix, ln.len() - suffix.len())
}

/// The listing holds a non-folder entry whose name ends with the suffix.
pub open spec fn spec_has_suffix_file(files: Seq<DriveEntry>, suffix: Seq<char>) -> bool {
    exists|k: int|
        0 <= k < files.len() && spec_name_ends_with(#[trigger] files[k], suffix) && files[k].mime@
            != spec_folder_mime()
}

/// The first entry whose name ends with the suffix.
pub open spec fn spec_find_suffix(files: Seq<DriveEntry>, suffix: Seq<char>, i: int) -> Option<int>
    decreases files.len() - i,
    when 0 <= i <= files.len()
{
    if i >= files.len() {
        None
    } else if spec_name_ends_with(files[i], suffix) {
        Some(i)
    } else {
        spec_find_suffix(files, suffix, i + 1)
    }
}

/// The first non-folder entry named `report.json`, case-insensitively.
pub open spec fn spec_find_report(files: Seq<DriveEntry>, i: int) -> Option<int>
    decreases files.len() - i,
    when 0 <= i <= files.len()
{
    if i >= files.len() {
        None
    } else if spec_lower(files[i].name@) == "report.json"@ && files[i].mime@
        != spec_folder_mime() {
        Some(i)
    } else {
        spec_find_report(files, i + 1)
    }
}

fn folder_mime_str() -> (r: &'static str)
    ensures
        r@ == spec_folder_mime(),
{
    "application/vnd.google-apps.folder"
}

fn find_named(files: &Vec<DriveEntry>, name: &str) -> (r: Option<usize>)
    ensures
        match r {
            Some(k) => spec_find_named(files@, name@, 0) == Some(k as int) && k < files@.len(),
            None => spec_find_named(files@, name@, 0) is None,
        },
{
    let mut i: usize = 0;
    while i < files.len()
        invariant
            i <= files@.len(),
            spec_find_named(files@, name@, 0) == spec_find_named(files@, name@, i as int),
        decreases files@.len() - i,
    {
        if str_eq(files[i].name.as_str(), name) {
            return Some(i);
        }
        i = i + 1;
    }
    None
}

fn name_ends_with(e: &DriveEntry, suffix: &[char]) -> (r: bool)
    ensures
        r == spec_name_ends_with(*e, suffix@),
{
    let cs = chars_of(e.name.as_str());
    let n = cs.len();
    proof {
        assert(spec_lower(e.name@).len() == e.name@.len());
    }
    n >= suffix.len() && eq_at_ci(cs.as_slice(), suffix, n - suffix.len())
}

fn find_suffix(files: &Vec<DriveEntry>, suffix: &[char]) -> (r: Option<usize>)
    ensures
        match r {
            Some(k) => spec_find_suffix(files@, suffix@, 0) == Some(k as int) && k < files@.len(),
            None => spec_find_suffix(files@, suffix@, 0) is None,
        },
{
    let mut i: usize = 0;
    while i < files.len()
        invariant
            i <= files@.len(),
            spec_find_suffix(files@, suffix@, 0) == spec_find_suffix(files@, suffix@, i as int),
        decreases files@.len() - i,
    {
        if name_ends_with(&files[i], suffix) {
            return Some(i);
        }
        i = i + 1;
    }
    None
}

fn entry_not_folder(e: &DriveEntry) -> (r: bool)
    ensures
        r == (e.mime@ != spec_folder_mime()),
{
    !str_eq(e.mime.as_str(), folder_mime_str())
}

fn has_named_file(files: &Vec<DriveEntry>, name: &str) -> (r: bool)
    ensures
        r == spec_has_named_file(files@, name@),
{
    let mut i: usize = 0;
    while i < files.len()
        invariant
            i <= files@.len(),
            forall|k: int|
                0 <= k < i ==> !((#[trigger] files@[k]).name@ == name@ && files@[k].mime@
                    != spec_folder_mime()),
        decreases files@.len() - i,
    {
        if str_eq(files[i].name.as_str(), name) && entry_not_folder(&files[i]) {
            return true;
        }
        i = i + 1;
    }
    false
}

fn has_suffix_file(files: &Vec<DriveEntry>, suffix: &[char]) -> (r: bool)
    ensures
        r == spec_has_suffix_file(files@, suffix@),
{
    let mut i: usize = 0;
    while i < files.len()
        invariant
            i <= files@.len(),
            forall|k: int|
                0 <= k < i ==> !(spec_name_ends_with(#[trigger] files@[k], suffix@)
                    && files@[k].mime@ != spec_folder_mime()),
        decreases files@.len() - i,
    {
        if name_ends_with(&files[i], suffix) && entry_not_folder(&files[i]) {
            return true;
        }
        i = i + 1;
    }
    false
}

fn find_report(files: &Vec<DriveEntry>) -> (r: Option<usize>)
    ensures
        match r {
            Some(k) => spec_find_report(files@, 0) == Some(k as int) && k < files@.len(),
            None => spec_find_report(files@, 0) is None,
        },
{
    let pat = chars_of("report.json");
    let mut i: usize = 0;
    while i < files.len()
        invariant
            i <= files@.len(),
            pat@ == "report.json"@,
            spec_find_report(files@, 0) == spec_find_report(files@, i as int),
        decreases files@.len() - i,
    {
        let cs = chars_of(files[i].name.as_str());
        let ln = crate::text::to_lower_vec(cs.as_slice());
        let is_rep = ln.len() == pat.len() && crate::text::eq_at(ln.as_slice(), pat.as_slice(), 0);
        proof {
            if is_rep {
                assert(ln@.subrange(0, pat@.len() as int) =~= ln@);
            }
            if spec_lower(files@[i as int].name@) == "report.json"@ {
                assert(ln@.subrange(0, pat@.len() as int) =~= ln@);
            }
        }
        if is_rep && entry_not_folder(&files[i]) {
            return Some(i);
        }
        i = i + 1;
    }
    None
}

fn prefixed(prefix: &str, name: &str) -> (r: String)
    ensures
        r@ == prefix@ + name@,
{
    let mut r = String::from_str(prefix);
    r.append(name);
    r
}

/// Validates a deliverable folder listing and plans the download: the folder
/// must hold the instance's manifest, a logs folder with the four stage
/// logs, and optionally a results folder whose report is taken along.
pub fn validate_folder_listing(
    folder_name: &str,
    files: &Vec<DriveEntry>,
    log_files: Option<&Vec<DriveEntry>>,
    results_files: Option<&Vec<DriveEntry>>,
    folder_id: &str,
) -> (r: Result<ValidationResult, String>)
    ensures
        ({
            let tok = spec_instance_token(folder_name@);
            match r {
                Result::Err(e) => {
                    ||| (tok is None && e@
                        == "Could not extract instance name from folder name"@)
                    ||| (tok matches Some((a, b)) && {
                        let json_name = folder_name@.subrange(a, b) + ".json"@;
                        ||| (!spec_has_named_file(files@, json_name) && e@
                            == "Missing required file: "@ + json_name)
                        ||| (spec_has_named_file(files@, json_name) && log_files is None && e@
                            == "Missing required 'logs' folder (case insensitive search)"@)
                        ||| (spec_has_named_file(files@, json_name) && (log_files matches Some(
                            lf,
                        ) && exists|s: int|
                            0 <= s < 4 && !spec_has_suffix_file(
                                lf@,
                                #[trigger] spec_suffixes()[s],
                            )))
                    })
                },
                Result::Ok(v) => {
                    &&& tok matches Some((a, b)) && {
                        let json_name = folder_name@.subrange(a, b) + ".json"@;
                        &&& spec_has_named_file(files@, json_name)
                        &&& (spec_find_named(files@, json_name, 0) matches Some(fi)
                            && v.files_to_download@[0].id@ == files@[fi].id@
                            && v.files_to_download@[0].name@ == files@[fi].name@
                            && v.files_to_download@[0].path@ == "main/"@ + files@[fi].name@)
                    }
                    &&& v.folder_id@ == folder_id@
                    &&& (log_files matches Some(lf) && {
                        &&& (forall|s: int|
                            0 <= s < 4 ==> spec_has_suffix_file(
                                lf@,
                                #[trigger] spec_suffixes()[s],
                            ))
                        &&& (forall|s: int|
                            #![trigger spec_suffixes()[s]]
                            0 <= s < 4 ==> (spec_find_suffix(lf@, spec_suffixes()[s], 0)
                                matches Some(fi) && v.files_to_download@[s + 1].id@
                                == lf@[fi].id@ && v.files_to_download@[s + 1].name@
                                == lf@[fi].name@ && v.files_to_download@[s + 1].path@ == "logs/"@
                                + lf@[fi].name@))
                    })
                    &&& (match results_files {
                        Some(rf) => (match spec_find_report(rf@, 0) {
                            Some(ri) => v.files_to_download@.len() == 6
                                && v.files_to_download@[5].id@ == rf@[ri].id@
                                && v.files_to_download@[5].name@ == rf@[ri].name@
                                && v.files_to_download@[5].path@ == "results/"@ + rf@[ri].name@,
                            None => v.files_to_download@.len() == 5,
                        }),
                        None => v.files_to_download@.len() == 5,
                    })
                },
            }
        }),
{
    let cs = chars_of(folder_name);
    let s = cs.as_slice();
    let ghost pa = |k: int| !spec_is_ws(s@[k]);
    let mut a: usize = 0;
    let n = s.len();
    loop
        invariant
            a <= s@.len(),
            n == s@.len(),
            s@ == folder_name@,
            pa == (|k: int| !spec_is_ws(s@[k])),
            forall|j: int| 0 <= j < a ==> !#[trigger] pa(j),
        ensures
            a <= s@.len(),
            s@ == folder_name@,
            (if a < s@.len() {
                spec_first(s@.len() as int, 0, pa) == Some(a as int)
            } else {
                spec_first(s@.len() as int, 0, pa) is None
            }),
        decreases s@.len() - a,
    {
        if a >= n {
            proof {
                lemma_spec_first_skip(s@.len() as int, 0, s@.len() as int, pa);
            }
            break;
        }
        if !is_ws(s[a]) {
            proof {
                assert(pa(a as int));
                lemma_spec_first_skip(s@.len() as int, 0, a as int, pa);
            }
            break;
        }
        proof {
            assert(pa(a as int) == !spec_is_ws(s@[a as int]));
        }
        a = a + 1;
    }
    if a >= n {
        return Result::Err(String::from_str("Could not extract instance name from folder name"));
    }
    let ghost pb = |k: int| spec_is_ws(s@[k]);
    let mut b: usize = a;
    loop
        invariant
            a <= b <= s@.len(),
            n == s@.len(),
            s@ == folder_name@,
            pb == (|k: int| spec_is_ws(s@[k])),
            forall|j: int| a <= j < b ==> !#[trigger] pb(j),
        ensures
            a <= b <= s@.len(),
            s@ == folder_name@,
            b == (match spec_first(s@.len() as int, a as int, pb) {
                Some(x) => x,
                None => s@.len() as int,
            }),
        decreases s@.len() - b,
    {
        if b >= n {
            proof {
                lemma_spec_first_skip(s@.len() as int, a as int, s@.len() as int, pb);
            }
            break;
        }
        if is_ws(s[b]) {
            proof {
                assert(pb(b as int));
                lemma_spec_first_skip(s@.len() as int, a as int, b as int, pb);
            }
            break;
        }
        proof {
            assert(pb(b as int) == spec_is_ws(s@[b as int]));
        }
        b = b + 1;
    }
    let mut json_name = string_from_range(s, a, b);
    json_name.append(".json");
    proof {
        assert(spec_instance_token(folder_name@) == Some((a as int, b as int)));
        assert(json_name@ == folder_name@.subrange(a as int, b as int) + ".json"@);
    }
    if !has_named_file(files, json_name.as_str()) {
        let mut e = String::from_str("Missing required file: ");
        e.append(json_name.as_str());
        return Result::Err(e);
    }
    let lf = match log_files {
        Some(lf) => lf,
        None => {
            return Result::Err(
                String::from_str("Missing required 'logs' folder (case insensitive search)"),
            );
        },
    };
    let suffixes = suffix_patterns();
    let mut si: usize = 0;
    while si < 4
        invariant
            si <= 4,
            suffixes@.len() == 4,
            a <= b <= folder_name@.len(),
            spec_instance_token(folder_name@) == Some((a as int, b as int)),
            json_name@ == folder_name@.subrange(a as int, b as int) + ".json"@,
            spec_has_named_file(files@, json_name@),
            log_files matches Some(x) && x == lf,
            forall|k: int| 0 <= k < 4 ==> (#[trigger] suffixes@[k])@ == spec_suffixes()[k],
            forall|k: int| 0 <= k < si ==> spec_has_suffix_file(lf@, #[trigger] spec_suffixes()[k]),
        decreases 4 - si,
    {
        let sufchars = chars_of(suffixes[si]);
        if !has_suffix_file(lf, sufchars.as_slice()) {
            let mut e = String::from_str("Missing required log file ending with: ");
            e.append(suffixes[si]);
            e.append(" (case insensitive search)");
            proof {
                assert(!spec_has_suffix_file(lf@, spec_suffixes()[si as int]));
            }
            return Result::Err(e);
        }
        si = si + 1;
    }
    let mut files_to_download: Vec<FileInfo> = Vec::new();
    proof {
        lemma_named_has_implies_find(files@, json_name@);
    }
    match find_named(files, json_name.as_str()) {
        Some(k) => {
            files_to_download.push(
                FileInfo {
                    id: files[k].id.clone(),
                    name: files[k].name.clone(),
                    path: prefixed("main/", files[k].name.as_str()),
                },
            );
        },
        None => {
            proof {
                assert(false);
            }
        },
    }
    let mut si2: usize = 0;
    while si2 < 4
        invariant
            si2 <= 4,
            suffixes@.len() == 4,
            log_files matches Some(x) && x == lf,
            forall|k: int| 0 <= k < 4 ==> (#[trigger] suffixes@[k])@ == spec_suffixes()[k],
            forall|k: int| 0 <= k < 4 ==> spec_has_suffix_file(lf@, #[trigger] spec_suffixes()[k]),
            files_to_download@.len() == si2 + 1,
            files_to_download@[0].id@ == files@[spec_find_named(files@, json_name@, 0)->Some_0].id@,
            files_to_download@[0].name@ == files@[spec_find_named(files@, json_name@, 0)->Some_0].name@,
            files_to_download@[0].path@ == "main/"@ + files@[
                spec_find_named(files@, json_name@, 0)->Some_0
            ].name@,
            spec_find_named(files@, json_name@, 0) is Some,
            json_name@ == folder_name@.subrange(a as int, b as int) + ".json"@,
            spec_instance_token(folder_name@) == Some((a as int, b as int)),
            spec_has_named_file(files@, json_name@),
            forall|s: int|
                #![trigger spec_suffixes()[s]]
                0 <= s < si2 ==> (spec_find_suffix(lf@, spec_suffixes()[s], 0) matches Some(fi)
                    && files_to_download@[s + 1].id@ == lf@[fi].id@
                    && files_to_download@[s + 1].name@ == lf@[fi].name@
                    && files_to_download@[s + 1].path@ == "logs/"@ + lf@[fi].name@),
        decreases 4 - si2,
    {
        let sufchars = chars_of(suffixes[si2]);
        match find_suffix(lf, sufchars.as_slice()) {
            Some(k) => {
                files_to_download.push(
                    FileInfo {
                        id: lf[k].id.clone(),
                        name: lf[k].name.clone(),
                        path: prefixed("logs/", lf[k].name.as_str()),
                    },
                );
            },
            None => {
                proof {
                    assert(spec_has_suffix_file(lf@, suffixes@[si2 as int]@));
                    lemma_suffix_has_implies_find(lf@, suffixes@[si2 as int]@);
                    assert(false);
                }
            },
        }
        si2 = si2 + 1;
    }
    match results_files {
        Some(rf) => {
            match find_report(rf) {
                Some(k) => {
                    files_to_download.push(
                        FileInfo {
                            id: rf[k].id.clone(),
                            name: rf[k].name.clone(),
                            path: prefixed("results/", rf[k].name.as_str()),
                        },
                    );
                },
                None => {},
            }
        },
        None => {},
    }
    Result::Ok(ValidationResult { files_to_download, folder_id: String::from_str(folder_id) })
}

/// The four stage-log suffixes a deliverable must carry.
pub open spec fn spec_suffixes() -> Seq<Seq<char>> {
    seq!["_after.log"@, "_before.log"@, "_base.log"@, "_post_agent_patch.log"@]
}

fn suffix_patterns() -> (r: Vec<&'static str>)
    ensures
        r@.len() == 4,
        forall|k: int| 0 <= k < 4 ==> (#[trigger] r@[k])@ == spec_suffixes()[k],
{
    let mut r: Vec<&'static str> = Vec::new();
    r.push("_after.log");
    r.push("_before.log");
    r.push("_base.log");
    r.push("_post_agent_patch.log");
    r
}

proof fn lemma_named_has_implies_find(files: Seq<DriveEntry>, name: Seq<char>)
    requires
        spec_has_named_file(files, name),
    ensures
        spec_find_named(files, name, 0) is Some,
    decreases files.len(),
{
    let k = choose|k: int|
        0 <= k < files.len() && (#[trigger] files[k]).name@ == name && files[k].mime@
            != spec_folder_mime();
    lemma_find_named_some(files, name, 0, k);
}

proof fn lemma_find_named_some(files: Seq<DriveEntry>, name: Seq<char>, i: int, k: int)
    requires
        0 <= i <= k < files.len(),
        files[k].name@ == name,
    ensures
        spec_find_named(files, name, i) is Some,
    decreases k - i,
{
    if files[i].name@ != name {
        lemma_find_named_some(files, name, i + 1, k);
    }
}

proof fn lemma_suffix_has_implies_find(files: Seq<DriveEntry>, suffix: Seq<char>)
    requires
        spec_has_suffix_file(files, suffix),
    ensures
        spec_find_suffix(files, suffix, 0) is Some,
{
    let k = choose|k: int|
        0 <= k < files.len() && spec_name_ends_with(#[trigger] files[k], suffix) && files[k].mime@
            != spec_folder_mime();
    lemma_find_suffix_some(files, suffix, 0, k);
}

proof fn lemma_find_suffix_some(files: Seq<DriveEntry>, suffix: Seq<char>, i: int, k: int)
    requires
        0 <= i <= k < files.len(),
        spec_name_ends_with(files[k], suffix),
    ensures
        spec_find_suffix(files, suffix, i) is Some,
    decreases k - i,
{
    if !spec_name_ends_with(files[i], suffix) {
        lemma_find_suffix_some(files, suffix, i + 1, k);
    }
}

/// The path-matching patterns each file type is looked up with.
pub open spec fn spec_type_patterns(t: Seq<char>) -> Option<Seq<Seq<char>>> {
    if t == "base"@ {
        Some(seq!["base.log"@, "base.txt"@])
    } else if t == "before"@ {
        Some(seq!["before.log"@, "before.txt"@])
    } else if t == "after"@ {
        Some(seq!["after.log"@, "after.txt"@])
    } else if t == "agent"@ {
        Some(seq!["post_agent_patch"@])
    } else if t == "main_json"@ {
        Some(seq!["main/"@, "report.json"@, "summary.json"@])
    } else if t == "report"@ {
        Some(
            seq![
                "results/report.json"@,
                "report.json"@,
                "results/"@,
                "analysis.json"@,
                "results.json"@,
            ],
        )
    } else {
        None
    }
}

/// The first path whose lower-cased text holds any of the patterns.
pub open spec fn spec_find_path_any(
    paths: Seq<Seq<char>>,
    pats: Seq<Seq<char>>,
    i: int,
) -> Option<Seq<char>>
    decreases paths.len() - i,
    when 0 <= i <= paths.len()
{
    if i >= paths.len() {
        None
    } else if exists|k: int|
        0 <= k < pats.len() && seq_contains(spec_lower(paths[i]), #[trigger] pats[k]) {
        Some(paths[i])
    } else {
        spec_find_path_any(paths, pats, i + 1)
    }
}

/// Selects the file a viewer's file type maps to among the deliverable's
/// paths; an unrecognized type is an error.
pub fn find_file_for_type(file_type: &str, file_paths: &Vec<String>) -> (r: Result<
    Option<String>,
    String,
>)
    ensures
        match r {
            Result::Err(e) => spec_type_patterns(file_type@) is None && e@
                == "Unknown file type: "@ + file_type@,
            Result::Ok(found) => {
                &&& spec_type_patterns(file_type@) is Some
                &&& (match found {
                    Some(p) => spec_find_path_any(
                        file_paths.deep_view(),
                        spec_type_patterns(file_type@)->Some_0,
                        0,
                    ) == Some(p@),
                    None => spec_find_path_any(
                        file_paths.deep_view(),
                        spec_type_patterns(file_type@)->Some_0,
                        0,
                    ) is None,
                })
            },
        },
{
    let mut pats: Vec<&'static str> = Vec::new();
    if str_eq(file_type, "base") {
        pats.push("base.log");
        pats.push("base.txt");
    } else if str_eq(file_type, "before") {
        pats.push("before.log");
        pats.push("before.txt");
    } else if str_eq(file_type, "after") {
        pats.push("after.log");
        pats.push("after.txt");
    } else if str_eq(file_type, "agent") {
        pats.push("post_agent_patch");
    } else if str_eq(file_type, "main_json") {
        pats.push("main/");
        pats.push("report.json");
        pats.push("summary.json");
    } else if str_eq(file_type, "report") {
        pats.push("results/report.json");
        pats.push("report.json");
        pats.push("results/");
        pats.push("analysis.json");
        pats.push("results.json");
    } else {
        let mut e = String::from_str("Unknown file type: ");
        e.append(file_type);
        return Result::Err(e);
    }
    let ghost spats = spec_type_patterns(file_type@)->Some_0;
    proof {
        assert(pats@.map_values(|p: &str| p@) =~~= spats);
    }
    let ghost dv = file_paths.deep_view();
    let mut i: usize = 0;
    while i < file_paths.len()
        invariant
            i <= dv.len(),
            dv == file_paths.deep_view(),
            dv.len() == file_paths@.len(),
            spats == spec_type_patterns(file_type@)->Some_0,
            spec_type_patterns(file_type@) is Some,
            pats@.map_values(|p: &str| p@) == spats,
            pats@.len() == spats.len(),
            spec_find_path_any(dv, spats, 0) == spec_find_path_any(dv, spats, i as int),
        decreases dv.len() - i,
    {
        proof {
            assert(dv[i as int] == file_paths@[i as int]@);
        }
        let cs = chars_of(file_paths[i].as_str());
        let mut found = false;
        let mut k: usize = 0;
        while k < pats.len()
            invariant
                k <= pats@.len(),
                i < dv.len(),
                dv == file_paths.deep_view(),
                dv[i as int] == file_paths@[i as int]@,
                cs@ == dv[i as int],
                pats@.map_values(|p: &str| p@) == spats,
                pats@.len() == spats.len(),
                found == exists|a: int|
                    0 <= a < k && seq_contains(spec_lower(dv[i as int]), #[trigger] spats[a]),
            decreases pats@.len() - k,
        {
            proof {
                assert(spats[k as int] == pats@[k as int]@);
            }
            let pc = chars_of(pats[k]);
            if contains_ci(cs.as_slice(), pc.as_slice()) {
                found = true;
                proof {
                    assert(seq_contains(spec_lower(dv[i as int]), spats[k as int]));
                }
            }
            k = k + 1;
        }
        if found {
            return Result::Ok(Some(file_paths[i].clone()));
        }
        i = i + 1;
    }
    Result::Ok(None)
}

} // verus!
