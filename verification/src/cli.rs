use vstd::prelude::*;
use vstd::string::StrSliceExecFns;
use vstd::string::StringExecFns;

verus! {

/// The length of `name` up to its extension, scanning its final path
/// component backwards from position `i`: the last '.' starts the extension,
/// unless it opens the component (a hidden file has no extension). A name
/// whose final component holds no such dot keeps its full length.
pub open spec fn stem_len(name: Seq<char>, i: int) -> int
    decreases i,
{
    if i <= 1 {
        name.len() as int
    } else if name[i - 1] == '/' {
        name.len() as int
    } else if name[i - 1] == '.' {
        if name[i - 2] == '/' {
            name.len() as int
        } else {
            i - 1
        }
    } else {
        stem_len(name, i - 1)
    }
}

/// The name with its extension set to `ext`: a trailing extension of the
/// final component is replaced, any other name gets `ext` appended after a
/// dot, as `PathBuf::set_extension` composes file names.
pub open spec fn with_extension(name: Seq<char>, ext: Seq<char>) -> Seq<char> {
    name.take(stem_len(name, name.len() as int)) + "."@ + ext
}

/// The composed data-file path: `<dir>/data/<name>` with the extension set.
pub open spec fn datafile_path(dir: Seq<char>, name: Seq<char>, ext: Seq<char>) -> Seq<char> {
    dir + "/data/"@ + with_extension(name, ext)
}

/// Where the extension of `name` begins.
fn stem_len_exec(name: &String) -> (r: usize)
    ensures
        r == stem_len(name@, name@.len() as int),
        r <= name@.len(),
{
    let n = name.as_str().unicode_len();
    let mut i: usize = n;
    while i > 1
        invariant
            i <= n,
            n == name@.len(),
            stem_len(name@, n as int) == stem_len(name@, i as int),
        decreases i,
    {
        let c = name.as_str().get_char(i - 1);
        if c == '/' {
            return n;
        }
        if c == '.' {
            let c2 = name.as_str().get_char(i - 2);
            if c2 == '/' {
                return n;
            }
            return i - 1;
        }
        i = i - 1;
    }
    n
}

/// The input data file a run works on.
#[derive(Debug)]
pub struct Datafiles {
    pub input_file: String,
}

impl Datafiles {
    /// Compose the input path under `dir`: the given file name or
    /// "St_Brieuc-Loudéac" by default, its extension set to the given one
    /// or "osm.pbf" by default (replacing a trailing extension the name
    /// already carries).
    pub fn new(dir: String, f: Option<String>, e: Option<String>) -> (d: Self)
        ensures
            d.input_file@ == datafile_path(
                dir@,
                match f {
                    Some(name) => name@,
                    None => "St_Brieuc-Loudéac"@,
                },
                match e {
                    Some(ext) => ext@,
                    None => "osm.pbf"@,
                },
            ),
    {
        let name: String = match f {
            Some(n) => n,
            None => "St_Brieuc-Loudéac".to_owned(),
        };
        let sl = stem_len_exec(&name);
        let stem = name.as_str().substring_char(0, sl);
        let mut p = dir;
        p.append("/data/");
        p.append(stem);
        p.append(".");
        match &e {
            Some(ext) => p.append(ext.as_str()),
            None => p.append("osm.pbf"),
        }
        Self { input_file: p }
    }

    pub fn get_ifilepath(&self) -> (r: &String)
        ensures
            r@ == self.input_file@,
    {
        &self.input_file
    }

    pub fn get_ifile_str(&self) -> (r: String)
        ensures
            r@ == self.input_file@,
    {
        self.input_file.clone()
    }
}

/// The input file name for a run: the command-line choices, already
/// parsed, composed under the working directory `dir`.
pub fn get_input_filename(dir: String, filename: Option<String>, itype: Option<String>) -> (r:
    String)
    ensures
        r@ == datafile_path(
            dir@,
            match filename {
                Some(name) => name@,
                None => "St_Brieuc-Loudéac"@,
            },
            match itype {
                Some(ext) => ext@,
                None => "osm.pbf"@,
            },
        ),
{
    let df = Datafiles::new(dir, filename, itype);
    df.get_ifile_str()
}

} // verus!
