//! Validated identifiers of clients, connections, channels, ports and modules.
use vstd::prelude::*;
use crate::decimal::{decimal, push_decimal};

verus! {

/// The longest identifier accepted.
pub const MAX_IDENTIFIER_LEN: usize = 64;

/// Characters allowed in an identifier: alphanumerics and `._+-#[]<>`.
pub open spec fn is_id_char(c: char) -> bool {
    ||| ('a' <= c && c <= 'z')
    ||| ('A' <= c && c <= 'Z')
    ||| ('0' <= c && c <= '9')
    ||| c == '.'
    ||| c == '_'
    ||| c == '+'
    ||| c == '-'
    ||| c == '#'
    ||| c == '['
    ||| c == ']'
    ||| c == '<'
    ||| c == '>'
}

pub open spec fn has_valid_length(s: Seq<char>) -> bool {
    1 <= s.len() <= MAX_IDENTIFIER_LEN
}

pub open spec fn has_valid_chars(s: Seq<char>) -> bool {
    forall|i: int| 0 <= i < s.len() ==> is_id_char(#[trigger] s[i])
}

pub open spec fn is_valid_identifier(s: Seq<char>) -> bool {
    has_valid_length(s) && has_valid_chars(s)
}

/// No identifier holds the path separator.
pub proof fn lemma_identifier_has_no_separator(s: Seq<char>)
    requires
        is_valid_identifier(s),
    ensures
        !s.contains('/'),
{
    if s.contains('/') {
        let i = choose|i: int| 0 <= i < s.len() && s[i] == '/';
        assert(is_id_char(s[i]));
    }
}

/// Why a text is not an identifier.
#[derive(Debug, Clone, Copy, PartialEq, Eq, Structural)]
pub enum IdentifierError {
    /// Empty, or longer than `MAX_IDENTIFIER_LEN`.
    InvalidLength,
    /// Holds a character outside the identifier alphabet.
    InvalidCharacter,
}

/// The error that validating `s` yields, if any.
pub open spec fn identifier_error(s: Seq<char>) -> Option<IdentifierError> {
    if !has_valid_length(s) {
        Some(IdentifierError::InvalidLength)
    } else if !has_valid_chars(s) {
        Some(IdentifierError::InvalidCharacter)
    } else {
        None
    }
}

fn is_id_char_exec(c: char) -> (r: bool)
    ensures
        r == is_id_char(c),
{
    ('a' <= c && c <= 'z') || ('A' <= c && c <= 'Z') || ('0' <= c && c <= '9') || c == '.' || c
        == '_' || c == '+' || c == '-' || c == '#' || c == '[' || c == ']' || c == '<' || c == '>'
}

/// Checks `s` against the identifier rules.
pub fn validate_identifier(s: &str) -> (r: Result<(), IdentifierError>)
    ensures
        r is Ok <==> identifier_error(s@) is None,
        r matches Err(e) ==> identifier_error(s@) == Some(e),
{
    let len = s.unicode_len();
    if len == 0 || len > MAX_IDENTIFIER_LEN {
        return Err(IdentifierError::InvalidLength);
    }
    let mut i: usize = 0;
    while i < len
        invariant
            len == s@.len(),
            has_valid_length(s@),
            i <= len,
            forall|j: int| 0 <= j < i ==> is_id_char(#[trigger] s@[j]),
        decreases len - i,
    {
        if !is_id_char_exec(s.get_char(i)) {
            assert(!is_id_char(s@[i as int]));
            return Err(IdentifierError::InvalidCharacter);
        }
        i = i + 1;
    }
    Ok(())
}

/// A text that satisfies the identifier rules.
pub struct Identifier {
    text: String,
}

impl View for Identifier {
    type V = Seq<char>;

    closed spec fn view(&self) -> Seq<char> {
        self.text@
    }
}

impl Identifier {
    #[verifier::type_invariant]
    spec fn inv(&self) -> bool {
        is_valid_identifier(self.text@)
    }

    /// Takes `s` as an identifier, or says why it is not one.
    pub fn from_string(s: String) -> (r: Result<Identifier, IdentifierError>)
        ensures
            match r {
                Ok(id) => id@ == s@ && identifier_error(s@) is None,
                Err(e) => identifier_error(s@) == Some(e),
            },
    {
        match validate_identifier(s.as_str()) {
            Ok(()) => Ok(Identifier { text: s }),
            Err(e) => Err(e),
        }
    }

    pub fn from_str(s: &str) -> (r: Result<Identifier, IdentifierError>)
        ensures
            match r {
                Ok(id) => id@ == s@ && identifier_error(s@) is None,
                Err(e) => identifier_error(s@) == Some(e),
            },
    {
        Identifier::from_string(String::from_str(s))
    }

    pub fn as_str(&self) -> (r: &str)
        ensures
            r@ == self@,
            is_valid_identifier(self@),
    {
        proof {
            use_type_invariant(self);
        }
        self.text.as_str()
    }

    pub fn copy(&self) -> (r: Identifier)
        ensures
            r@ == self@,
    {
        proof {
            use_type_invariant(self);
        }
        Identifier { text: self.text.clone() }
    }

    pub fn equals(&self, other: &Identifier) -> (r: bool)
        ensures
            r == (self@ == other@),
    {
        self.text == other.text
    }
}

/// The text of the client identifier built from a client type and a counter.
pub open spec fn client_id_text(client_type: Seq<char>, counter: nat) -> Seq<char> {
    client_type + seq!['-'] + decimal(counter)
}

/// Identifier of a light client: its client type, a dash, and a counter.
pub struct ClientId {
    pub id: Identifier,
}

/// Identifier of a connection end.
pub struct ConnectionId {
    pub id: Identifier,
}

/// Identifier of a channel end.
pub struct ChannelId {
    pub id: Identifier,
}

/// Identifier of a port.
pub struct PortId {
    pub id: Identifier,
}

/// Identifier of an application module.
pub struct ModuleId {
    pub id: Identifier,
}

impl View for ClientId {
    type V = Seq<char>;

    open spec fn view(&self) -> Seq<char> {
        self.id@
    }
}

impl View for ConnectionId {
    type V = Seq<char>;

    open spec fn view(&self) -> Seq<char> {
        self.id@
    }
}

impl View for ChannelId {
    type V = Seq<char>;

    open spec fn view(&self) -> Seq<char> {
        self.id@
    }
}

impl View for PortId {
    type V = Seq<char>;

    open spec fn view(&self) -> Seq<char> {
        self.id@
    }
}

impl View for ModuleId {
    type V = Seq<char>;

    open spec fn view(&self) -> Seq<char> {
        self.id@
    }
}

impl ClientId {
    /// The identifier `{client_type}-{counter}`.
    pub fn new(client_type: &str, counter: u64) -> (r: Result<ClientId, IdentifierError>)
        ensures
            match r {
                Ok(id) => id@ == client_id_text(client_type@, counter as nat) && identifier_error(
                    id@,
                ) is None,
                Err(e) => identifier_error(client_id_text(client_type@, counter as nat)) == Some(e),
            },
    {
        let mut text = String::from_str(client_type);
        proof {
            reveal_strlit("-");
        }
        text.append("-");
        push_decimal(&mut text, counter);
        assert(text@ =~= client_id_text(client_type@, counter as nat));
        match Identifier::from_string(text) {
            Ok(id) => Ok(ClientId { id }),
            Err(e) => Err(e),
        }
    }

    pub fn from_str(s: &str) -> (r: Result<ClientId, IdentifierError>)
        ensures
            match r {
                Ok(id) => id@ == s@ && identifier_error(s@) is None,
                Err(e) => identifier_error(s@) == Some(e),
            },
    {
        match Identifier::from_str(s) {
            Ok(id) => Ok(ClientId { id }),
            Err(e) => Err(e),
        }
    }

    pub fn as_str(&self) -> (r: &str)
        ensures
            r@ == self@,
            is_valid_identifier(self@),
    {
        self.id.as_str()
    }

    pub fn copy(&self) -> (r: ClientId)
        ensures
            r@ == self@,
    {
        ClientId { id: self.id.copy() }
    }
}

impl ConnectionId {
    pub fn from_str(s: &str) -> (r: Result<ConnectionId, IdentifierError>)
        ensures
            match r {
                Ok(id) => id@ == s@ && identifier_error(s@) is None,
                Err(e) => identifier_error(s@) == Some(e),
            },
    {
        match Identifier::from_str(s) {
            Ok(id) => Ok(ConnectionId { id }),
            Err(e) => Err(e),
        }
    }

    pub fn as_str(&self) -> (r: &str)
        ensures
            r@ == self@,
            is_valid_identifier(self@),
    {
        self.id.as_str()
    }

    pub fn copy(&self) -> (r: ConnectionId)
        ensures
            r@ == self@,
    {
        ConnectionId { id: self.id.copy() }
    }
}

impl ChannelId {
    pub fn from_str(s: &str) -> (r: Result<ChannelId, IdentifierError>)
        ensures
            match r {
                Ok(id) => id@ == s@ && identifier_error(s@) is None,
                Err(e) => identifier_error(s@) == Some(e),
            },
    {
        match Identifier::from_str(s) {
            Ok(id) => Ok(ChannelId { id }),
            Err(e) => Err(e),
        }
    }

    pub fn as_str(&self) -> (r: &str)
        ensures
            r@ == self@,
            is_valid_identifier(self@),
    {
        self.id.as_str()
    }

    pub fn copy(&self) -> (r: ChannelId)
        ensures
            r@ == self@,
    {
        ChannelId { id: self.id.copy() }
    }
}

impl PortId {
    pub fn from_str(s: &str) -> (r: Result<PortId, IdentifierError>)
        ensures
            match r {
                Ok(id) => id@ == s@ && identifier_error(s@) is None,
                Err(e) => identifier_error(s@) == Some(e),
            },
    {
        match Identifier::from_str(s) {
            Ok(id) => Ok(PortId { id }),
            Err(e) => Err(e),
        }
    }

    pub fn as_str(&self) -> (r: &str)
        ensures
            r@ == self@,
            is_valid_identifier(self@),
    {
        self.id.as_str()
    }

    pub fn copy(&self) -> (r: PortId)
        ensures
            r@ == self@,
    {
        PortId { id: self.id.copy() }
    }
}

impl ModuleId {
    pub fn from_str(s: &str) -> (r: Result<ModuleId, IdentifierError>)
        ensures
            match r {
                Ok(id) => id@ == s@ && identifier_error(s@) is None,
                Err(e) => identifier_error(s@) == Some(e),
            },
    {
        match Identifier::from_str(s) {
            Ok(id) => Ok(ModuleId { id }),
            Err(e) => Err(e),
        }
    }

    pub fn as_str(&self) -> (r: &str)
        ensures
            r@ == self@,
            is_valid_identifier(self@),
    {
        self.id.as_str()
    }

    pub fn copy(&self) -> (r: ModuleId)
        ensures
            r@ == self@,
    {
        ModuleId { id: self.id.copy() }
    }
}

} // verus!
