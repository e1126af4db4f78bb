use std::collections::BTreeMap;
use std::sync::{Arc, Mutex};
use wickdb::Error;
use wickdb::db::filename::{current_contents, outcome, update_current};
use wickdb::storage::{do_write_string_to_file, File, MemFile, SeekFrom, Storage};

type Files = Arc<Mutex<BTreeMap<String, Vec<u8>>>>;

/// What a store of this kind is told to fail at.
#[derive(Clone, Copy, Default)]
struct Faults {
    create: bool,
    write: bool,
    flush: bool,
    close: bool,
    remove: bool,
    rename: bool,
}

struct SharedFile {
    name: String,
    files: Files,
    faults: Faults,
    flushed: Arc<Mutex<u32>>,
}

fn failure(what: &str) -> Error {
    Error::IO {
        interrupted: false,
        message: what.to_string(),
    }
}

impl File for SharedFile {
    fn seek(&mut self, _pos: SeekFrom) -> Result<u64, Error> {
        Err(Error::io("no position"))
    }
    fn read(&mut self, _len: usize) -> Result<Vec<u8>, Error> {
        Err(Error::io("no position"))
    }
    fn read_all(&mut self, _buf: &mut Vec<u8>) -> Result<usize, Error> {
        Err(Error::io("no position"))
    }
    fn lock(&self) -> Result<(), Error> {
        Ok(())
    }
    fn unlock(&self) -> Result<(), Error> {
        Ok(())
    }
    fn write(&mut self, buf: &[u8]) -> Result<usize, Error> {
        if self.faults.write {
            return Err(failure("write"));
        }
        let mut files = self.files.lock().unwrap();
        files
            .entry(self.name.clone())
            .or_default()
            .extend_from_slice(buf);
        Ok(buf.len())
    }

    fn flush(&mut self) -> Result<(), Error> {
        if self.faults.flush {
            return Err(failure("flush"));
        }
        *self.flushed.lock().unwrap() += 1;
        Ok(())
    }

    fn close(&mut self) -> Result<(), Error> {
        if self.faults.close {
            return Err(failure("close"));
        }
        Ok(())
    }

    fn len(&self) -> Result<u64, Error> {
        match self.files.lock().unwrap().get(&self.name) {
            Some(data) => Ok(data.len() as u64),
            None => Err(Error::NotFound),
        }
    }

    fn read_at(&self, offset: u64, len: usize) -> Result<Vec<u8>, Error> {
        let files = self.files.lock().unwrap();
        let data = files.get(&self.name).ok_or(Error::NotFound)?;
        let start = (offset as usize).min(data.len());
        let end = start.saturating_add(len).min(data.len());
        Ok(data[start..end].to_vec())
    }
}

struct SharedStorage {
    files: Files,
    faults: Faults,
    flushed: Arc<Mutex<u32>>,
}

impl SharedStorage {
    fn new(faults: Faults) -> Self {
        SharedStorage {
            files: Arc::new(Mutex::new(BTreeMap::new())),
            faults,
            flushed: Arc::new(Mutex::new(0)),
        }
    }

    fn contents(&self, name: &str) -> Option<Vec<u8>> {
        self.files.lock().unwrap().get(name).cloned()
    }

    fn names(&self) -> Vec<String> {
        self.files.lock().unwrap().keys().cloned().collect()
    }
}

impl Storage for SharedStorage {
    type F = SharedFile;

    fn create(&self, name: &str) -> Result<SharedFile, Error> {
        if self.faults.create {
            return Err(failure("create"));
        }
        self.files.lock().unwrap().insert(name.to_string(), Vec::new());
        self.open(name)
    }

    fn open(&self, name: &str) -> Result<SharedFile, Error> {
        if !self.has_file(name) {
            return Err(Error::NotFound);
        }
        Ok(SharedFile {
            name: name.to_string(),
            files: self.files.clone(),
            faults: self.faults,
            flushed: self.flushed.clone(),
        })
    }

    fn remove(&self, name: &str) -> Result<(), Error> {
        if self.faults.remove {
            return Err(failure("remove"));
        }
        match self.files.lock().unwrap().remove(name) {
            Some(_) => Ok(()),
            None => Err(Error::NotFound),
        }
    }

    fn remove_dir(&self, dir: &str, _recursively: bool) -> Result<(), Error> {
        let prefix = format!("{}/", dir);
        self.files.lock().unwrap().retain(|k, _| !k.starts_with(&prefix));
        Ok(())
    }

    fn has_file(&self, name: &str) -> bool {
        self.files.lock().unwrap().contains_key(name)
    }

    fn rename(&self, from: &str, to: &str) -> Result<(), Error> {
        if self.faults.rename {
            return Err(failure("rename"));
        }
        let mut files = self.files.lock().unwrap();
        match files.remove(from) {
            Some(data) => {
                files.insert(to.to_string(), data);
                Ok(())
            }
            None => Err(Error::NotFound),
        }
    }

    fn mkdir_all(&self, _dir: &str) -> Result<(), Error> {
        Ok(())
    }

    fn list(&self, dir: &str) -> Result<Vec<String>, Error> {
        let prefix = format!("{}/", dir);
        Ok(self
            .names()
            .into_iter()
            .filter(|k| k.starts_with(&prefix))
            .collect())
    }
}

fn message_of(r: Result<(), Error>) -> String {
    match r {
        Err(Error::IO { message, .. }) => message,
        other => panic!("an I/O error was expected, not {:?}", other),
    }
}

#[test]
fn written_string_is_in_the_file() {
    let env = SharedStorage::new(Faults::default());
    do_write_string_to_file(&env, "hello".to_string(), "dir/a", false).expect("write");
    assert_eq!(env.contents("dir/a"), Some(b"hello".to_vec()));
    assert_eq!(*env.flushed.lock().unwrap(), 0);
    do_write_string_to_file(&env, "again".to_string(), "dir/a", true).expect("write");
    assert_eq!(env.contents("dir/a"), Some(b"again".to_vec()));
    assert_eq!(*env.flushed.lock().unwrap(), 1);
}

#[test]
fn write_string_fails_with_the_first_error() {
    let env = SharedStorage::new(Faults {
        create: true,
        write: true,
        ..Faults::default()
    });
    assert_eq!(
        message_of(do_write_string_to_file(&env, "x".to_string(), "a", true)),
        "create"
    );
    let env = SharedStorage::new(Faults {
        write: true,
        flush: true,
        ..Faults::default()
    });
    assert_eq!(
        message_of(do_write_string_to_file(&env, "x".to_string(), "a", true)),
        "write"
    );
    let env = SharedStorage::new(Faults {
        flush: true,
        close: true,
        ..Faults::default()
    });
    assert_eq!(
        message_of(do_write_string_to_file(&env, "x".to_string(), "a", true)),
        "flush"
    );
    // without a sync the flush is not tried
    let env = SharedStorage::new(Faults {
        flush: true,
        ..Faults::default()
    });
    do_write_string_to_file(&env, "x".to_string(), "a", false).expect("write");
    assert_eq!(env.contents("a"), Some(b"x".to_vec()));
}

#[test]
fn file_that_cannot_be_closed_is_removed() {
    let env = SharedStorage::new(Faults {
        close: true,
        ..Faults::default()
    });
    do_write_string_to_file(&env, "x".to_string(), "a", true).expect("write");
    assert_eq!(env.contents("a"), None);
    let env = SharedStorage::new(Faults {
        close: true,
        remove: true,
        ..Faults::default()
    });
    assert_eq!(
        message_of(do_write_string_to_file(&env, "x".to_string(), "a", true)),
        "remove"
    );
}

#[test]
fn current_names_the_manifest() {
    let env = SharedStorage::new(Faults::default());
    update_current(&env, "db", 7).expect("update");
    assert_eq!(env.contents("db/CURRENT"), Some(b"MANIFEST-000007".to_vec()));
    assert_eq!(env.names(), vec!["db/CURRENT".to_string()]);
    assert_eq!(*env.flushed.lock().unwrap(), 1);
    update_current(&env, "db", 1234567).expect("update");
    assert_eq!(
        env.contents("db/CURRENT"),
        Some(b"MANIFEST-1234567".to_vec())
    );
    assert_eq!(env.names(), vec!["db/CURRENT".to_string()]);
}

#[test]
fn failed_update_leaves_no_temporary_file() {
    let env = SharedStorage::new(Faults {
        write: true,
        ..Faults::default()
    });
    assert_eq!(message_of(update_current(&env, "db", 3)), "write");
    assert!(env.names().is_empty());
    let env = SharedStorage::new(Faults {
        write: true,
        remove: true,
        ..Faults::default()
    });
    assert_eq!(message_of(update_current(&env, "db", 3)), "remove");
    assert_eq!(env.names(), vec!["db/000003.dbtmp".to_string()]);
    let env = SharedStorage::new(Faults {
        rename: true,
        ..Faults::default()
    });
    assert_eq!(message_of(update_current(&env, "db", 3)), "rename");
    assert_eq!(
        env.contents("db/000003.dbtmp"),
        Some(b"MANIFEST-000003".to_vec())
    );
}

#[test]
fn contents_of_current() {
    assert_eq!(current_contents("db", 9), "MANIFEST-000009");
    assert_eq!(current_contents("a/b", 0), "MANIFEST-000000");
    assert_eq!(current_contents("дом", 12), "MANIFEST-000012");
    // with nothing between the directory and the name, the name loses a character
    assert_eq!(current_contents("", 9), "ANIFEST-000009");
    assert_eq!(current_contents("db/", 9), "ANIFEST-000009");
}

#[test]
fn outcome_of_two_steps() {
    assert!(outcome(Ok(()), Ok(())).is_ok());
    assert_eq!(message_of(outcome(Err(failure("first")), Ok(()))), "first");
    assert_eq!(message_of(outcome(Ok(()), Err(failure("then")))), "then");
    assert_eq!(
        message_of(outcome(Err(failure("first")), Err(failure("then")))),
        "then"
    );
}

#[test]
fn position_of_a_file_in_memory() {
    let mut file = MemFile::from_bytes((0u8..10).collect());
    assert_eq!(file.read(3).unwrap(), vec![0, 1, 2]);
    assert_eq!(file.read(0).unwrap(), Vec::<u8>::new());
    assert_eq!(file.seek(SeekFrom::Current(2)).unwrap(), 5);
    assert_eq!(file.read(2).unwrap(), vec![5, 6]);
    assert_eq!(file.seek(SeekFrom::End(-1)).unwrap(), 9);
    assert_eq!(file.read(5).unwrap(), vec![9]);
    assert_eq!(file.read(5).unwrap(), Vec::<u8>::new());
    assert_eq!(file.seek(SeekFrom::Start(4)).unwrap(), 4);
    let mut rest = vec![42];
    assert_eq!(file.read_all(&mut rest).unwrap(), 6);
    assert_eq!(rest, vec![42, 4, 5, 6, 7, 8, 9]);
    assert_eq!(file.read_all(&mut rest).unwrap(), 0);
    assert_eq!(rest.len(), 7);
    // beyond the end there is a position, and nothing to read
    assert_eq!(file.seek(SeekFrom::End(5)).unwrap(), 15);
    assert_eq!(file.read(1).unwrap(), Vec::<u8>::new());
    assert_eq!(file.read_all(&mut rest).unwrap(), 0);
    // before the start and beyond all numbers there is none
    for pos in [
        SeekFrom::End(-11),
        SeekFrom::Current(-16),
        SeekFrom::Current(i64::MIN),
        SeekFrom::End(i64::MIN),
    ] {
        let e = file.seek(pos).unwrap_err();
        assert_eq!(
            e.to_string(),
            "invalid argument: invalid seek to a negative or overflowing position"
        );
    }
    assert_eq!(file.seek(SeekFrom::Current(0)).unwrap(), 15);
    assert_eq!(file.seek(SeekFrom::Start(u64::MAX)).unwrap(), u64::MAX);
    assert!(file.seek(SeekFrom::Current(1)).is_err());
    assert_eq!(file.seek(SeekFrom::Current(i64::MIN)).unwrap(), u64::MAX - (1 << 63));
    // writing goes to the end, wherever the position is
    assert_eq!(file.seek(SeekFrom::Start(2)).unwrap(), 2);
    file.write(&[10, 11]).unwrap();
    assert_eq!(file.len().unwrap(), 12);
    assert_eq!(file.read(100).unwrap(), (2u8..12).collect::<Vec<u8>>());
    assert!(file.lock().is_ok());
    assert!(file.unlock().is_ok());
    assert!(!file.is_empty());
    assert!(MemFile::new().is_empty());
}
