//! Assembling the answer of the code generator from the files it wrote.
use vstd::prelude::*;
use crate::pragma::{chars_of, pair_views};
use crate::tools::{Backend, ToolError};

verus! {

/// Whether `a` sorts strictly before `b`: lexicographic by code point,
/// which is the byte order of their UTF-8 encodings.
pub open spec fn name_lt(a: Seq<char>, b: Seq<char>) -> bool
    decreases a.len(),
{
    if b.len() == 0 {
        false
    } else if a.len() == 0 {
        true
    } else if a[0] != b[0] {
        (a[0] as u32) < (b[0] as u32)
    } else {
        name_lt(a.drop_first(), b.drop_first())
    }
}

/// `s` with `x` placed before its first entry whose name sorts after `x`'s.
pub open spec fn insert_by_name(x: (Seq<char>, Seq<char>), s: Seq<(Seq<char>, Seq<char>)>)
    -> Seq<(Seq<char>, Seq<char>)>
    decreases s.len(),
{
    if s.len() == 0 {
        seq![x]
    } else if name_lt(x.0, s[0].0) {
        seq![x] + s
    } else {
        seq![s[0]] + insert_by_name(x, s.drop_first())
    }
}

/// The `(name, body)` pairs ordered by name (insertion sort, stable).
pub open spec fn sort_by_name(s: Seq<(Seq<char>, Seq<char>)>) -> Seq<(Seq<char>, Seq<char>)>
    decreases s.len(),
{
    if s.len() == 0 {
        s
    } else {
        insert_by_name(s.last(), sort_by_name(s.drop_last()))
    }
}

/// The text block for one generated file: `// file: NAME`, then its
/// contents.
pub open spec fn section(f: (Seq<char>, Seq<char>)) -> Seq<char> {
    "// file: "@ + f.0 + "\n"@ + f.1
}

/// The `Debug` rendering of a backend.
pub open spec fn backend_debug(b: Backend) -> Seq<char> {
    match b {
        Backend::Rust => "Rust"@,
        Backend::Go => "Go"@,
        Backend::Cpp => "Cpp"@,
        Backend::Kotlin => "Kotlin"@,
        Backend::C11 => "C11"@,
    }
}

/// Error for a run that wrote no file.
pub open spec fn no_files_msg(b: Backend) -> Seq<char> {
    "sce-codegen produced no files for backend "@ + backend_debug(b)
}

/// Views of a list of strings.
pub open spec fn string_views(v: Seq<String>) -> Seq<Seq<char>> {
    v.map_values(|s: String| s@)
}

/// Inserting before the first entry whose name sorts after `x`'s.
proof fn lemma_insert_at(x: (Seq<char>, Seq<char>), s: Seq<(Seq<char>, Seq<char>)>, p: int)
    requires
        0 <= p <= s.len(),
        forall|j: int| 0 <= j < p ==> !name_lt(x.0, #[trigger] s[j].0),
        p < s.len() ==> name_lt(x.0, s[p].0),
    ensures
        insert_by_name(x, s) == s.insert(p, x),
    decreases s.len(),
{
    if s.len() == 0 {
        assert(s.insert(p, x) =~= seq![x]);
    } else if p == 0 {
        assert(s.insert(p, x) =~= seq![x] + s);
    } else {
        assert forall|j: int| 0 <= j < p - 1 implies !name_lt(x.0, #[trigger] s.drop_first()[j].0) by {
            assert(s.drop_first()[j] == s[j + 1]);
        }
        lemma_insert_at(x, s.drop_first(), p - 1);
        assert(s.insert(p, x) =~= seq![s[0]] + s.drop_first().insert(p - 1, x));
    }
}

/// Whether the name `a` sorts strictly before the name `b`.
pub fn name_before(a: &String, b: &String) -> (r: bool)
    ensures
        r == name_lt(a@, b@),
{
    let x = chars_of(a.as_str());
    let y = chars_of(b.as_str());
    let mut k: usize = 0;
    assert(x@.skip(0) =~= x@);
    assert(y@.skip(0) =~= y@);
    loop
        invariant
            k <= x.len(),
            k <= y.len(),
            x@ == a@,
            y@ == b@,
            name_lt(a@, b@) == name_lt(x@.skip(k as int), y@.skip(k as int)),
        decreases x.len() - k,
    {
        if k == y.len() {
            return false;
        }
        if k == x.len() {
            return true;
        }
        if x[k] != y[k] {
            return (x[k] as u32) < (y[k] as u32);
        }
        assert(x@.skip(k as int).drop_first() =~= x@.skip(k + 1));
        assert(y@.skip(k as int).drop_first() =~= y@.skip(k + 1));
        k += 1;
    }
}

/// The `(name, body)` pairs ordered by name.
pub fn sorted_by_name(files: &Vec<(String, String)>) -> (r: Vec<(String, String)>)
    ensures
        pair_views(r@) == sort_by_name(pair_views(files@)),
{
    let ghost fs = pair_views(files@);
    let mut r: Vec<(String, String)> = Vec::new();
    let mut i: usize = 0;
    assert(fs.take(0) =~= Seq::<(Seq<char>, Seq<char>)>::empty());
    while i < files.len()
        invariant
            i <= files.len(),
            fs == pair_views(files@),
            pair_views(r@) == sort_by_name(fs.take(i as int)),
        decreases files.len() - i,
    {
        let x = (files[i].0.clone(), files[i].1.clone());
        let ghost xv = (x.0@, x.1@);
        assert(xv == fs[i as int]);
        let mut p: usize = 0;
        while p < r.len() && !name_before(&x.0, &r[p].0)
            invariant
                p <= r.len(),
                xv == (x.0@, x.1@),
                forall|j: int| 0 <= j < p ==> !name_lt(xv.0, #[trigger] pair_views(r@)[j].0),
            decreases r.len() - p,
        {
            assert(pair_views(r@)[p as int].0 == r@[p as int].0@);
            p += 1;
        }
        let ghost before = pair_views(r@);
        proof {
            if p < r.len() {
                assert(before[p as int].0 == r@[p as int].0@);
            }
            lemma_insert_at(xv, before, p as int);
        }
        r.insert(p, x);
        assert(pair_views(r@) =~= before.insert(p as int, xv));
        assert(fs.take(i + 1).drop_last() =~= fs.take(i as int));
        i += 1;
    }
    assert(fs.take(files.len() as int) =~= fs);
    r
}

/// The answer of a code-generator run: its error output when it failed,
/// an error when it wrote no file, and otherwise one text block per file
/// (`// file: NAME` then the contents), ordered by file name.
pub fn generated_sections(success: bool, stderr: String, files: &Vec<(String, String)>, backend: Backend)
    -> (r: Result<Vec<String>, ToolError>)
    ensures
        !success ==> (r matches Err(ToolError::CodegenFailed(m)) && m@ == stderr@),
        success && files.len() == 0 ==> (r matches Err(ToolError::CodegenFailed(m)) && m@ == no_files_msg(backend)),
        success && files.len() > 0 ==> (r matches Ok(v) && string_views(v@)
            == sort_by_name(pair_views(files@)).map_values(|f: (Seq<char>, Seq<char>)| section(f))),
{
    if !success {
        return Err(ToolError::CodegenFailed(stderr));
    }
    if files.len() == 0 {
        let mut m = String::from_str("sce-codegen produced no files for backend ");
        let label = match backend {
            Backend::Rust => "Rust",
            Backend::Go => "Go",
            Backend::Cpp => "Cpp",
            Backend::Kotlin => "Kotlin",
            Backend::C11 => "C11",
        };
        m.append(label);
        return Err(ToolError::CodegenFailed(m));
    }
    let sorted = sorted_by_name(files);
    let ghost target = pair_views(sorted@).map_values(|f: (Seq<char>, Seq<char>)| section(f));
    let mut out: Vec<String> = Vec::new();
    let mut i: usize = 0;
    while i < sorted.len()
        invariant
            i <= sorted.len(),
            target == pair_views(sorted@).map_values(|f: (Seq<char>, Seq<char>)| section(f)),
            string_views(out@) == target.take(i as int),
        decreases sorted.len() - i,
    {
        let mut s = String::from_str("// file: ");
        s.append(sorted[i].0.as_str());
        s.append("\n");
        s.append(sorted[i].1.as_str());
        let ghost before = string_views(out@);
        out.push(s);
        assert(string_views(out@) =~= before.push(s@));
        assert(target.take(i + 1) =~= target.take(i as int).push(target[i as int]));
        i += 1;
    }
    assert(target.take(sorted.len() as int) =~= target);
    Ok(out)
}

} // verus!
