//! Accounts as rows of comma-separated text.
//!
//! The writer fills a `String`; sending the text anywhere is the caller's
//! business, who takes the text out as it grows or all at the end. The first
//! row it writes is preceded by a header:
//!
//! ```text
//! client,available,held,total,locked
//! 1,1.5000,0.0000,1.5000,false
//! ```

use crate::accounts::Account;
use crate::amount::{push_amount, rendered};
use crate::text::{numeral, push_numeral};
use vstd::prelude::*;
use vstd::string::StringExecFns;

verus! {

/// The header that precedes the first row.
pub open spec fn header() -> Seq<char> {
    "client,available,held,total,locked\n"@
}

/// The row of `account`: the client, the three balances with four digits
/// behind the point, and the lock, each followed by a comma but the last,
/// which ends the line.
pub open spec fn row(account: Account) -> Seq<char> {
    numeral(account.client as nat) + seq![','] + rendered(account.available as int) + seq![',']
        + rendered(account.held as int) + seq![','] + rendered(account.total as int) + seq![',']
        + (if account.locked {
        "true"@
    } else {
        "false"@
    }) + seq!['\n']
}

/// Writes the row of `account` behind what `out` holds.
pub fn push_row(out: &mut String, account: &Account)
    ensures
        final(out)@ == old(out)@ + row(*account),
{
    proof {
        reveal_strlit(",");
        reveal_strlit("\n");
        assert(","@ =~= seq![',']);
        assert("\n"@ =~= seq!['\n']);
    }
    let ghost written = numeral(account.client as nat);
    push_numeral(out, account.client as u64);
    out.append(",");
    proof {
        written = written + seq![','];
        assert(out@ =~= old(out)@ + written);
    }
    push_amount(out, account.available);
    proof {
        written = written + rendered(account.available as int);
        assert(out@ =~= old(out)@ + written);
    }
    out.append(",");
    proof {
        written = written + seq![','];
        assert(out@ =~= old(out)@ + written);
    }
    push_amount(out, account.held);
    proof {
        written = written + rendered(account.held as int);
        assert(out@ =~= old(out)@ + written);
    }
    out.append(",");
    proof {
        written = written + seq![','];
        assert(out@ =~= old(out)@ + written);
    }
    push_amount(out, account.total);
    proof {
        written = written + rendered(account.total as int);
        assert(out@ =~= old(out)@ + written);
    }
    out.append(",");
    proof {
        written = written + seq![','];
        assert(out@ =~= old(out)@ + written);
    }
    out.append(
        if account.locked {
            "true"
        } else {
            "false"
        },
    );
    proof {
        written = written + (if account.locked {
            "true"@
        } else {
            "false"@
        });
        assert(out@ =~= old(out)@ + written);
    }
    out.append("\n");
    proof {
        written = written + seq!['\n'];
        assert(out@ =~= old(out)@ + written);
        assert(written == row(*account));
    }
}

/// Writes accounts as rows of text, after a header.
pub struct AccountsCsvWriter {
    writer: String,
    header_written: bool,
}

impl AccountsCsvWriter {
    /// The text that the writer holds: what it was made with and what it
    /// has written, as far as that was not taken out.
    pub closed spec fn text(&self) -> Seq<char> {
        self.writer@
    }

    /// Whether the header has been written.
    pub closed spec fn started(&self) -> bool {
        self.header_written
    }

    /// A writer that writes behind what `writer` holds, header first.
    pub fn from_writer(writer: String) -> (made: Self)
        ensures
            made.text() == writer@,
            !made.started(),
    {
        Self { writer, header_written: false }
    }

    /// Writes the header, unless it has been written.
    pub fn write_header(&mut self)
        ensures
            final(self).started(),
            final(self).text() == old(self).text() + (if old(self).started() {
                Seq::empty()
            } else {
                header()
            }),
    {
        if !self.header_written {
            self.writer.append("client,available,held,total,locked\n");
            self.header_written = true;
        }
        assert(self.writer@ =~= old(self).text() + (if old(self).started() {
            Seq::empty()
        } else {
            header()
        }));
    }

    /// Writes the row of `account`, and before it the header if this is the
    /// first row.
    pub fn write_account(&mut self, account: &Account)
        ensures
            final(self).started(),
            final(self).text() == old(self).text() + (if old(self).started() {
                Seq::empty()
            } else {
                header()
            }) + row(*account),
    {
        self.write_header();
        push_row(&mut self.writer, account);
    }

    /// Takes out the text that the writer holds and leaves it holding none.
    /// Whether the header has been written stays as it is.
    pub fn take(&mut self) -> (text: String)
        ensures
            text@ == old(self).text(),
            final(self).text() == Seq::<char>::empty(),
            final(self).started() == old(self).started(),
    {
        let mut text = String::new();
        std::mem::swap(&mut self.writer, &mut text);
        text
    }

    /// The text that the writer holds.
    pub fn into_inner(self) -> (writer: String)
        ensures
            writer@ == self.text(),
    {
        self.writer
    }
}

} // verus!
