//! The mail settings: sender and recipient mailboxes read from their
//! configured text, and the SMTP account.

use vstd::prelude::*;

use crate::text::{
    chars_of, index_of, index_of_char, lemma_index_of, opt_view, string_of, to_owned_string,
    trim, trim_str,
};

verus! {

/// What `lettre::Address::new(user, domain)` says of an address: `None`
/// when it accepts it, otherwise the text of its error.
pub uninterp spec fn address_error(user: Seq<char>, domain: Seq<char>) -> Option<Seq<char>>;

/// `lettre::Address::new(user, domain)`: whether lettre accepts the user
/// and domain as an email address, and the text (`Display`) of its error
/// when it does not. The contract names the result, a function of the
/// arguments alone; lettre's validation rules are not restated.
#[verifier::external_body]
fn check_address(user: &str, domain: &str) -> (r: Option<String>)
    ensures
        opt_view(r) == address_error(user@, domain@),
{
    match lettre::Address::new(user, domain) {
        Ok(_) => None,
        Err(e) => Some(e.to_string()),
    }
}

/// A mailbox: an optional display name and an address, split at its `@`.
pub struct Mailbox {
    pub name: Option<String>,
    pub user: String,
    pub domain: String,
}

pub open spec fn mailbox_view(m: Mailbox) -> (Option<Seq<char>>, Seq<char>, Seq<char>) {
    (opt_view(m.name), m.user@, m.domain@)
}

/// The address in `s`, split at its first `@`, or the error for it.
pub open spec fn address_result(s: Seq<char>, label: Seq<char>) -> Result<(Seq<char>, Seq<char>), Seq<char>> {
    match index_of(s, '@') {
        None => Err("invalid "@ + label + ": missing '@' in '"@ + s + "'"@),
        Some(i) => {
            let user = s.take(i);
            let domain = s.skip(i + 1);
            match address_error(user, domain) {
                None => Ok((user, domain)),
                Some(e) => Err("invalid "@ + label + " address: "@ + e),
            }
        },
    }
}

/// `Name <address>`: the trimmed name and the trimmed address, when the
/// text has a `<` and ends with `>`.
pub open spec fn angle_form(raw: Seq<char>) -> Option<(Seq<char>, Seq<char>)> {
    match index_of(raw, '<') {
        Some(i) => {
            let after = raw.skip(i + 1);
            if after.len() > 0 && after.last() == '>' {
                Some((trim(raw.take(i)), trim(after.drop_last())))
            } else {
                None
            }
        },
        None => None,
    }
}

/// The mailbox that `raw` describes, `Name <address>` or a bare address,
/// or the error for it; `label` names the setting in errors.
pub open spec fn mailbox_result(raw: Seq<char>, label: Seq<char>) -> Result<
    (Option<Seq<char>>, Seq<char>, Seq<char>),
    Seq<char>,
> {
    match angle_form(raw) {
        Some((name, addr)) => match address_result(addr, label) {
            Ok((u, d)) => Ok((if name.len() == 0 { None } else { Some(name) }, u, d)),
            Err(e) => Err(e),
        },
        None => match address_result(raw, label) {
            Ok((u, d)) => Ok((None, u, d)),
            Err(e) => Err(e),
        },
    }
}

pub open spec fn mailbox_result_view(r: Result<Mailbox, String>) -> Result<
    (Option<Seq<char>>, Seq<char>, Seq<char>),
    Seq<char>,
> {
    match r {
        Ok(m) => Ok(mailbox_view(m)),
        Err(e) => Err(e@),
    }
}

fn parse_address(s: &str, label: &str) -> (r: Result<(String, String), String>)
    ensures
        match r {
            Ok((u, d)) => address_result(s@, label@) == Ok::<(Seq<char>, Seq<char>), Seq<char>>((u@, d@)),
            Err(e) => address_result(s@, label@) == Err::<(Seq<char>, Seq<char>), Seq<char>>(e@),
        },
{
    let v = chars_of(s);
    match index_of_char(&v, '@') {
        None => {
            let mut e = to_owned_string("invalid ");
            e.append(label);
            e.append(": missing '@' in '");
            e.append(s);
            e.append("'");
            Err(e)
        },
        Some(i) => {
            proof {
                lemma_index_of(v@, '@');
            }
            let user = string_of(&v, 0, i);
            let domain = string_of(&v, i + 1, v.len());
            assert(v@.subrange(0, i as int) =~= v@.take(i as int));
            assert(v@.subrange(i + 1, v@.len() as int) =~= v@.skip(i + 1));
            match check_address(user.as_str(), domain.as_str()) {
                None => Ok((user, domain)),
                Some(err) => {
                    let mut e = to_owned_string("invalid ");
                    e.append(label);
                    e.append(" address: ");
                    e.append(err.as_str());
                    Err(e)
                },
            }
        },
    }
}

/// Reads a mailbox from its configured text, `Name <address>` or a bare
/// address; `label` names the setting in errors.
pub fn parse_mailbox(raw: &str, label: &str) -> (r: Result<Mailbox, String>)
    ensures
        mailbox_result_view(r) == mailbox_result(raw@, label@),
{
    let v = chars_of(raw);
    let mut angle: Option<(String, String)> = None;
    match index_of_char(&v, '<') {
        Some(i) => {
            proof {
                lemma_index_of(v@, '<');
            }
            let n = v.len();
            if n > i + 1 && v[n - 1] == '>' {
                let name = trim_str(&string_of(&v, 0, i));
                let addr = trim_str(&string_of(&v, i + 1, n - 1));
                assert(v@.subrange(0, i as int) =~= v@.take(i as int));
                assert(v@.subrange(i + 1, n - 1) =~= v@.skip(i + 1).drop_last());
                angle = Some((name, addr));
            } else {
                assert(v@.skip(i + 1).len() == n - i - 1);
                if n > i + 1 {
                    assert(v@.skip(i + 1).last() == v@[n - 1]);
                }
            }
        },
        None => {},
    }
    match angle {
        Some((name, addr)) => {
            match parse_address(addr.as_str(), label) {
                Ok((user, domain)) => {
                    let name = if name.as_str().is_empty() {
                        None
                    } else {
                        Some(name)
                    };
                    Ok(Mailbox { name, user, domain })
                },
                Err(e) => Err(e),
            }
        },
        None => {
            match parse_address(raw, label) {
                Ok((user, domain)) => Ok(Mailbox { name: None, user, domain }),
                Err(e) => Err(e),
            }
        },
    }
}

/// The mail settings: who sends, who receives, and the SMTP account.
pub struct EmailSender {
    pub from: Mailbox,
    pub to: Mailbox,
    pub smtp_username: String,
    pub smtp_password: String,
    pub smtp_host: String,
    pub smtp_port: u16,
}

impl EmailSender {
    /// The mail settings, or the error for the sender or recipient text
    /// (the sender's first).
    pub fn new(
        from_email: &str,
        to_email: &str,
        smtp_host: &str,
        smtp_port: u16,
        smtp_username: &str,
        smtp_password: &str,
    ) -> (r: Result<EmailSender, String>)
        ensures
            match mailbox_result(from_email@, "FROM_EMAIL"@) {
                Err(e) => r matches Err(x) && x@ == e,
                Ok(f) => match mailbox_result(to_email@, "TO_EMAIL"@) {
                    Err(e) => r matches Err(x) && x@ == e,
                    Ok(t) => r matches Ok(s) && mailbox_view(s.from) == f && mailbox_view(s.to)
                        == t && s.smtp_host@ == smtp_host@ && s.smtp_port == smtp_port
                        && s.smtp_username@ == smtp_username@ && s.smtp_password@
                        == smtp_password@,
                },
            },
    {
        let from = match parse_mailbox(from_email, "FROM_EMAIL") {
            Ok(m) => m,
            Err(e) => {
                return Err(e);
            },
        };
        let to = match parse_mailbox(to_email, "TO_EMAIL") {
            Ok(m) => m,
            Err(e) => {
                return Err(e);
            },
        };
        Ok(
            EmailSender {
                from,
                to,
                smtp_username: to_owned_string(smtp_username),
                smtp_password: to_owned_string(smtp_password),
                smtp_host: to_owned_string(smtp_host),
                smtp_port,
            },
        )
    }
}

} // verus!
