//! The auto-upgrade status log: a single overwritten result code followed
//! by appended timestamp lines. Downstream tooling reads only the first
//! line for the latest result.

use vstd::prelude::*;

use crate::codec;
use crate::errs::AshError;
use crate::order;

verus! {

/// Mathematical image of the log: the last recorded outcome, if any, and
/// every timestamp ever appended.
#[verifier::ext_equal]
pub struct StatusView {
    pub code: Option<bool>,
    pub stamps: Seq<Seq<char>>,
}

/// The code line of the persisted log.
pub open spec fn code_line(code: Option<bool>) -> Seq<char> {
    match code {
        Some(true) => "0 "@,
        Some(false) => "1 "@,
        None => Seq::<char>::empty(),
    }
}

/// The persisted log: the code line, then one line per timestamp.
pub open spec fn ser_status(v: StatusView) -> Seq<char>
    decreases v.stamps.len(),
{
    if v.stamps.len() == 0 {
        code_line(v.code)
    } else {
        ser_status(StatusView { code: v.code, stamps: v.stamps.drop_last() }) + "\n"@
            + v.stamps.last()
    }
}

/// The log a persisted status file encodes: its first line is the code, any
/// further lines are the historical timestamps. An unrecognized code line
/// rejects the file.
pub open spec fn deser_status(s: Seq<char>) -> Option<StatusView> {
    let lines = codec::split(s, '\n');
    if lines[0] == "0 "@ {
        Some(StatusView { code: Some(true), stamps: lines.skip(1) })
    } else if lines[0] == "1 "@ {
        Some(StatusView { code: Some(false), stamps: lines.skip(1) })
    } else if lines[0].len() == 0 {
        Some(StatusView { code: None, stamps: lines.skip(1) })
    } else {
        None
    }
}

/// The persisted record of the last auto-upgrade attempt.
pub struct StatusLog {
    succeeded: Option<bool>,
    stamps: Vec<String>,
}

impl View for StatusLog {
    type V = StatusView;

    closed spec fn view(&self) -> StatusView {
        StatusView { code: self.succeeded, stamps: self.stamps.deep_view() }
    }
}

impl StatusLog {
    /// A log that has never recorded an attempt.
    pub fn new() -> (s: Self)
        ensures
            s@.code is None,
            s@.stamps == Seq::<Seq<char>>::empty(),
    {
        let s = StatusLog { succeeded: None, stamps: Vec::new() };
        proof {
            assert(s@.stamps =~= Seq::<Seq<char>>::empty());
        }
        s
    }

    /// Record one attempt: the code is overwritten, the timestamp appended
    /// after the historical ones.
    pub fn record(&mut self, succeeded: bool, timestamp: String)
        ensures
            final(self)@.code == Some(succeeded),
            final(self)@.stamps == old(self)@.stamps.push(timestamp@),
    {
        self.succeeded = Some(succeeded);
        let ghost pre = self.stamps.deep_view();
        self.stamps.push(timestamp);
        proof {
            assert(self.stamps.deep_view() =~= pre.push(self@.stamps.last()));
        }
    }

    /// The latest outcome, read from the first line alone.
    pub fn latest(&self) -> (r: Option<bool>)
        ensures
            r == self@.code,
    {
        self.succeeded
    }

    /// Rebuild the log from its persisted form, so that the historical
    /// timestamp lines survive across runs; a file whose code line is
    /// neither a recorded outcome nor empty is rejected as corrupt.
    pub fn load(s: &str) -> (r: Result<StatusLog, AshError>)
        ensures
            match r {
                Ok(log) => deser_status(s@) == Some(log@),
                Err(e) => e == AshError::Corrupt && deser_status(s@) is None,
            },
    {
        let lines = codec::split_str(s, '\n');
        let ghost ldv = lines.deep_view();
        proof {
            assert(lines@[0]@ == ldv[0]);
        }
        let code: Option<bool> = if order::str_eq(lines[0].as_str(), "0 ") {
            Some(true)
        } else if order::str_eq(lines[0].as_str(), "1 ") {
            Some(false)
        } else if lines[0].as_str().unicode_len() == 0 {
            None
        } else {
            return Err(AshError::Corrupt);
        };
        let mut stamps: Vec<String> = Vec::new();
        let mut j: usize = 1;
        proof {
            assert(stamps.deep_view() =~= ldv.subrange(1, 1));
        }
        while j < lines.len()
            invariant
                1 <= j <= lines.len(),
                ldv == lines.deep_view(),
                ldv.len() == lines@.len(),
                stamps.deep_view() == ldv.subrange(1, j as int),
            decreases lines.len() - j,
        {
            let ghost pre = stamps.deep_view();
            stamps.push(lines[j].clone());
            proof {
                assert(lines@[j as int]@ == ldv[j as int]);
                assert(stamps.deep_view() =~= pre.push(ldv[j as int]));
                assert(ldv.subrange(1, j + 1) =~= ldv.subrange(1, j as int).push(ldv[j as int]));
            }
            j = j + 1;
        }
        proof {
            assert(ldv.subrange(1, ldv.len() as int) =~= ldv.skip(1));
        }
        let log = StatusLog { succeeded: code, stamps };
        proof {
            assert(deser_status(s@) == Some(log@)) by {
                assert(log@ =~= StatusView { code, stamps: ldv.skip(1) });
            }
        }
        Ok(log)
    }

    /// The persisted form: the overwritten code line, the appended stamps.
    pub fn render(&self) -> (r: String)
        ensures
            r@ == ser_status(self@),
    {
        let mut out: String = match self.succeeded {
            Some(true) => ("0 ").to_owned(),
            Some(false) => ("1 ").to_owned(),
            None => String::new(),
        };
        let mut i: usize = 0;
        proof {
            assert(self@.stamps.take(0) =~= Seq::<Seq<char>>::empty());
            assert(ser_status(StatusView { code: self@.code, stamps: self@.stamps.take(0) })
                == code_line(self@.code));
        }
        while i < self.stamps.len()
            invariant
                i <= self.stamps.len(),
                self@.stamps.len() == self.stamps@.len(),
                out@ == ser_status(StatusView { code: self@.code, stamps: self@.stamps.take(i as int) }),
            decreases self.stamps.len() - i,
        {
            out.append("\n");
            out.append(self.stamps[i].as_str());
            proof {
                let t1 = self@.stamps.take(i + 1);
                assert(t1.drop_last() =~= self@.stamps.take(i as int));
                assert(t1.last() == self@.stamps[i as int]);
                assert(self.stamps@[i as int]@ == self@.stamps[i as int]);
                assert(StatusView { code: self@.code, stamps: t1.drop_last() } =~= StatusView {
                    code: self@.code,
                    stamps: self@.stamps.take(i as int),
                });
            }
            i = i + 1;
        }
        proof {
            assert(self@.stamps.take(self@.stamps.len() as int) =~= self@.stamps);
            assert(StatusView { code: self@.code, stamps: self@.stamps } =~= self@);
        }
        out
    }
}

} // verus!
