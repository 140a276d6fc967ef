//! The file-backed database: a store bound to the path of its backing file,
//! with a one-way `Uninitialized -> Initialized` state machine guarding all
//! access. The surrounding program performs the file reads and writes and
//! drives initialization: when the backing file exists, its text goes
//! through `load_content`; when it does not, the fresh store is written out
//! (from `snapshot`) and `mark_initialized` records the transition. On the
//! way out, `snapshot` again yields the text to persist.
use vstd::prelude::*;
use crate::codec::enc_model;
use crate::codec::sp_decode;
use crate::codec::decode;
use crate::codec::encode;
use crate::store::Data;
use crate::store::DataModel;
use crate::store::init_model;

verus! {

/// Why a database access or load failed.
#[derive(Clone, Copy, PartialEq, Eq, Structural, Debug)]
pub enum DbError {
    /// An accessor ran before initialization completed.
    Uninitialized,
    /// The backing file's content is not a serialized store.
    Parse,
}

/// Ghost image of the database.
#[verifier::ext_equal]
pub ghost struct DbModel {
    pub filename: Seq<char>,
    pub initialized: bool,
    pub data: DataModel,
}

/// A store bound to a backing file path, gated behind explicit
/// initialization.
pub struct FileDatabase {
    filename: String,
    initialized: bool,
    data: Data,
}

impl View for FileDatabase {
    type V = DbModel;

    closed spec fn view(&self) -> DbModel {
        DbModel {
            filename: self.filename@,
            initialized: self.initialized,
            data: self.data@,
        }
    }
}

impl FileDatabase {
    /// Binds a fresh, empty store to `filename`, not yet initialized.
    pub fn new(filename: &str) -> (r: FileDatabase)
        ensures
            r@ == (DbModel { filename: filename@, initialized: false, data: init_model() }),
    {
        let r = FileDatabase {
            filename: filename.to_owned(),
            initialized: false,
            data: Data::new(),
        };
        proof {
            assert(r@ =~= DbModel { filename: filename@, initialized: false, data: init_model() });
        }
        r
    }

    /// The path of the backing file this database is bound to.
    pub fn path(&self) -> (r: &str)
        ensures
            r@ == self@.filename,
    {
        self.filename.as_str()
    }

    /// Takes the backing file's text: on a parse, the store is replaced by
    /// the file's content and the database becomes initialized; otherwise
    /// nothing changes and the parse failure is reported.
    pub fn load_content(&mut self, content: &str) -> (r: Result<(), DbError>)
        ensures
            sp_decode(content@) matches Some(m) ==> r is Ok && final(self)@ == (DbModel {
                filename: old(self)@.filename,
                initialized: true,
                data: m,
            }),
            sp_decode(content@) is None ==> (r == Err::<(), DbError>(DbError::Parse) && *final(self)
                == *old(self)),
    {
        match decode(content) {
            Some(data) => {
                self.data = data;
                self.initialized = true;
                Ok(())
            },
            None => Err(DbError::Parse),
        }
    }

    /// Records that the store is in sync with the backing file — the
    /// missing-file path of initialization, after the fresh store was
    /// written out.
    pub fn mark_initialized(&mut self)
        ensures
            final(self)@ == (DbModel {
                filename: old(self)@.filename,
                initialized: true,
                data: old(self)@.data,
            }),
    {
        self.initialized = true;
    }

    /// The store's serialized form, as the backing file must hold it.
    pub fn snapshot(&self) -> (r: String)
        ensures
            r@ == enc_model(self@.data),
    {
        encode(&self.data)
    }

    /// Read-only access to the store; refused before initialization.
    pub fn get_data(&self) -> (r: Result<&Data, DbError>)
        ensures
            self@.initialized ==> (r matches Ok(d) && d@ == self@.data),
            !self@.initialized ==> r == Err::<&Data, DbError>(DbError::Uninitialized),
    {
        if self.initialized {
            Ok(&self.data)
        } else {
            Err(DbError::Uninitialized)
        }
    }

    /// Mutable access to the store; refused before initialization. The
    /// database afterwards holds whatever the caller made of the store.
    pub fn get_mut_data(&mut self) -> (r: Result<&mut Data, DbError>)
        ensures
            old(self)@.initialized ==> (r matches Ok(d) && (*d)@ == old(self)@.data
                && final(self)@ == (DbModel {
                filename: old(self)@.filename,
                initialized: true,
                data: (*final(d))@,
            })),
            !old(self)@.initialized ==> (r == Err::<&mut Data, DbError>(DbError::Uninitialized)
                && *final(self) == *old(self)),
    {
        if self.initialized {
            Ok(&mut self.data)
        } else {
            Err(DbError::Uninitialized)
        }
    }
}

} // verus!
