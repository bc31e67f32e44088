use vstd::prelude::*;

use vstd::string::StringExecFns;

verus! {

/// Tuple representing a file where the first string is the path, the second
/// the file name and the third the extension.
pub struct File(pub String, pub String, pub String);

impl File {
    /// Factory method for a file.
    pub fn new(path: String, name: String, extension: String) -> (f: File)
        ensures
            f.0@ == path@,
            f.1@ == name@,
            f.2@ == extension@,
    {
        File(path, name, extension)
    }

    /// Joins the file strings into the full path `path/name.extension`.
    pub fn get_full_path(&self) -> (r: String)
        ensures
            r@ == self.0@ + "/"@ + self.1@ + "."@ + self.2@,
    {
        let mut out = self.0.clone();
        out.append("/");
        out.append(self.1.as_str());
        out.append(".");
        out.append(self.2.as_str());
        out
    }

    /// Returns the file name.
    pub fn get_name(&self) -> (r: String)
        ensures
            r@ == self.1@,
    {
        self.1.clone()
    }

    /// Returns the extension of the file.
    pub fn get_extension(&self) -> (r: String)
        ensures
            r@ == self.2@,
    {
        self.2.clone()
    }
}

} // verus!
