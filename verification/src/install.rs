//! Where installed jars are put.

use vstd::prelude::*;

verus! {

/// Puts jars into a library directory.
#[derive(Debug)]
pub struct Installer {
    lib_dir: String,
}

impl View for Installer {
    type V = Seq<char>;

    /// The library directory.
    closed spec fn view(&self) -> Seq<char> {
        self.lib_dir@
    }
}

impl Installer {
    /// An installer into the directory `lib`.
    pub fn new() -> (r: Self)
        ensures
            r@ == "lib"@,
    {
        Installer { lib_dir: String::from_str("lib") }
    }

    /// The library directory.
    pub fn lib_dir(&self) -> (r: &String)
        ensures
            r@ == self@,
    {
        &self.lib_dir
    }

    /// The place of the file `name` in the library directory.
    pub fn lib_path(&self, name: &str) -> (r: String)
        ensures
            r@ == self@ + seq!['/'] + name@,
    {
        proof {
            reveal_strlit("/");
        }
        assert("/"@ =~= seq!['/']);
        let mut path = self.lib_dir.clone();
        path.append("/");
        path.append(name);
        path
    }
}

impl Default for Installer {
    /// An installer into the directory `lib`.
    fn default() -> (r: Self)
        ensures
            r@ == "lib"@,
    {
        Installer::new()
    }
}

} // verus!
