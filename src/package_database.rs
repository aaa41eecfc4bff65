use vstd::prelude::*;
use vstd::string::*;

verus! {

/// Where the package database lives: the environment variables to consult,
/// the fallback directory under the home directory, and the file's name.
#[derive(Clone, Debug)]
pub struct DatabaseFileDetails {
    /// Environment variable holding the directory the database is in.
    pub xdg_dir_env_var: String,
    /// Environment variable holding the user's home directory.
    pub home_dir_env_var: String,
    /// The directory to use, relative to the home directory, when the first
    /// variable is unset.
    pub default_xdg_dir: String,
    /// The database file, relative to that directory.
    pub package_database_file: String,
}

/// How to open a package database.
#[derive(Clone, Debug)]
pub struct DatabaseDetails {
    pub file_details: DatabaseFileDetails,
}

/// One package: its name and where its sources come from.
#[derive(Clone, Debug, PartialEq)]
pub struct Package {
    pub name: String,
    pub git_upstream_url: String,
}

/// Why a change to the database was refused.
#[derive(Clone, Copy, Debug, PartialEq, Eq, Structural)]
pub enum DatabaseError {
    /// Another package already has this name.
    PackageAlreadyExists,
}

/// The database file's path: the directory from the first variable, or else
/// the home directory followed by the fallback directory; then the file.
/// `None` when neither variable is set.
pub open spec fn database_path(
    d: DatabaseFileDetails,
    xdg_dir: Option<Seq<char>>,
    home_dir: Option<Seq<char>>,
) -> Option<Seq<char>> {
    match xdg_dir {
        Some(x) => Some(x + seq!['/'] + d.package_database_file@),
        None => match home_dir {
            Some(h) => Some(h + seq!['/'] + d.default_xdg_dir@ + seq!['/'] + d.package_database_file@),
            None => None,
        },
    }
}

pub open spec fn opt_str_view(o: Option<String>) -> Option<Seq<char>> {
    match o {
        Some(s) => Some(s@),
        None => None,
    }
}

/// The database file's path, given the values of the two environment
/// variables.
pub fn get_database_filename(file_details: &DatabaseFileDetails, xdg_dir: Option<String>, home_dir: Option<String>) -> (r: Option<String>)
    ensures
        opt_str_view(r) == database_path(*file_details, opt_str_view(xdg_dir), opt_str_view(home_dir)),
{
    proof {
        reveal_strlit("/");
    }
    let mut dir = match xdg_dir {
        Some(x) => x,
        None => match home_dir {
            Some(h) => {
                let mut h = h;
                h.append("/");
                h.append(file_details.default_xdg_dir.as_str());
                h
            },
            None => {
                return None;
            },
        },
    };
    dir.append("/");
    dir.append(file_details.package_database_file.as_str());
    Some(dir)
}

pub open spec fn package_names(v: Seq<Package>) -> Seq<Seq<char>> {
    v.map_values(|p: Package| p.name@)
}

/// The packages of a database, no two with the same name.
#[derive(Debug)]
pub struct DatabaseContents {
    packages: Vec<Package>,
}

impl View for DatabaseContents {
    type V = Seq<Package>;

    closed spec fn view(&self) -> Seq<Package> {
        self.packages@
    }
}

impl DatabaseContents {
    #[verifier::type_invariant]
    spec fn inv(&self) -> bool {
        package_names(self.packages@).no_duplicates()
    }

    /// An empty database.
    pub fn new() -> (r: DatabaseContents)
        ensures
            r@ == Seq::<Package>::empty(),
    {
        let r = DatabaseContents { packages: Vec::new() };
        assert(package_names(r.packages@) =~= Seq::empty());
        r
    }

    /// The packages, in the order they were added.
    pub fn packages(&self) -> (r: &Vec<Package>)
        ensures
            r@ == self@,
            package_names(r@).no_duplicates(),
    {
        proof {
            use_type_invariant(self);
        }
        &self.packages
    }

    /// Adds a package, unless one with the same name is already there.
    pub fn add_entry(&mut self, package: Package) -> (r: Result<(), DatabaseError>)
        ensures
            package_names(old(self)@).contains(package.name@) ==> r == Err::<(), DatabaseError>(
                DatabaseError::PackageAlreadyExists,
            ) && final(self)@ == old(self)@,
            !package_names(old(self)@).contains(package.name@) ==> r is Ok && final(self)@ == old(self)@.push(package),
    {
        proof {
            use_type_invariant(&*self);
        }
        let mut i: usize = 0;
        while i < self.packages.len()
            invariant
                i <= self.packages@.len(),
                forall|j: int| 0 <= j < i ==> self.packages@[j].name@ != package.name@,
            decreases self.packages@.len() - i,
        {
            if self.packages[i].name == package.name {
                proof {
                    assert(package_names(self.packages@)[i as int] == package.name@);
                }
                return Err(DatabaseError::PackageAlreadyExists);
            }
            i = i + 1;
        }
        proof {
            assert(!package_names(self.packages@).contains(package.name@)) by {
                if package_names(self.packages@).contains(package.name@) {
                    let j = choose|j: int| 0 <= j < package_names(self.packages@).len() && package_names(self.packages@)[j] == package.name@;
                    assert(self.packages@[j].name@ == package.name@);
                }
            }
            assert(package_names(self.packages@.push(package)) =~= package_names(self.packages@).push(package.name@));
        }
        let mut packages: Vec<Package> = Vec::new();
        std::mem::swap(&mut self.packages, &mut packages);
        packages.push(package);
        std::mem::swap(&mut self.packages, &mut packages);
        Ok(())
    }
}

} // verus!
