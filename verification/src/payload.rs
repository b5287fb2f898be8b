//! Inbound callback payloads and their validation rules.
//!
//! An amount is accepted when it is a well-formed decimal numeral —
//! an optional sign, digits, and at most one decimal point, with at least
//! one digit — and rejected as non-positive when it carries a minus sign
//! with a value of zero or holds no nonzero digit at all.

use vstd::prelude::*;
use vstd::string::StrSliceExecFns;
use vstd::string::StringExecFns;

verus! {

/// Payload received from the anchor platform's deposit callback.
#[derive(Debug)]
pub struct CallbackPayload {
    /// The anchor's correlation key; the idempotency key.
    pub id: String,
    /// Deposited amount as decimal text.
    pub amount_in: String,
    /// Destination account on the ledger.
    pub stellar_account: String,
    /// Asset code of the deposit.
    pub asset_code: String,
    pub callback_type: Option<String>,
    pub status: Option<String>,
}

/// Gateway reply: the stored row's identifier and its current status.
#[derive(Clone, Copy, PartialEq, Eq, Structural, Debug)]
pub struct CallbackResponse {
    pub transaction_id: u64,
    pub status: crate::store::TxStatus,
}

/// Reason a callback payload was rejected; never retried.
#[derive(Clone, Copy, PartialEq, Eq, Structural, Debug)]
pub enum ValidationError {
    /// The amount is not a well-formed decimal numeral.
    AmountFormat,
    /// The amount parses but is zero or negative.
    AmountNotPositive,
    /// The account is not exactly 56 characters long.
    AccountLength,
    /// The account does not start with `G`.
    AccountPrefix,
    /// The asset code is empty or longer than 12 characters.
    AssetCodeLength,
}

pub open spec fn is_digit(c: char) -> bool {
    '0' <= c && c <= '9'
}

/// Length of the optional leading sign.
pub open spec fn sign_len(s: Seq<char>) -> int {
    if s.len() > 0 && (s[0] == '+' || s[0] == '-') {
        1int
    } else {
        0int
    }
}

/// Digits with at most one decimal point, at least one digit.
pub open spec fn valid_decimal_body(t: Seq<char>) -> bool {
    &&& t.len() > 0
    &&& forall|i: int| 0 <= i < t.len() ==> is_digit(#[trigger] t[i]) || t[i] == '.'
    &&& forall|i: int, j: int| 0 <= i < j < t.len() ==> !(#[trigger] t[i] == '.' && #[trigger] t[j] == '.')
    &&& exists|i: int| 0 <= i < t.len() && is_digit(#[trigger] t[i])
}

/// A well-formed decimal numeral: an optional sign followed by a valid body.
pub open spec fn valid_decimal(s: Seq<char>) -> bool {
    valid_decimal_body(s.subrange(sign_len(s), s.len() as int))
}

pub open spec fn has_nonzero_digit(s: Seq<char>) -> bool {
    exists|i: int| 0 <= i < s.len() && '1' <= #[trigger] s[i] && s[i] <= '9'
}

/// A well-formed decimal whose value is strictly greater than zero.
pub open spec fn positive_decimal(s: Seq<char>) -> bool {
    &&& valid_decimal(s)
    &&& s[0] != '-'
    &&& has_nonzero_digit(s)
}

/// The account field rule: exactly 56 characters, starting with `G`.
pub open spec fn valid_account(s: Seq<char>) -> bool {
    s.len() == 56 && s[0] == 'G'
}

/// The asset code rule: between 1 and 12 characters.
pub open spec fn valid_asset(s: Seq<char>) -> bool {
    1 <= s.len() <= 12
}

/// All validation rules together.
pub open spec fn spec_valid_payload(p: CallbackPayload) -> bool {
    &&& positive_decimal(p.amount_in@)
    &&& valid_account(p.stellar_account@)
    &&& valid_asset(p.asset_code@)
}

/// The error an invalid payload is rejected with, in rule order.
pub open spec fn spec_validation_error(p: CallbackPayload) -> ValidationError {
    if !valid_decimal(p.amount_in@) {
        ValidationError::AmountFormat
    } else if !positive_decimal(p.amount_in@) {
        ValidationError::AmountNotPositive
    } else if p.stellar_account@.len() != 56 {
        ValidationError::AccountLength
    } else if p.stellar_account@[0] != 'G' {
        ValidationError::AccountPrefix
    } else {
        ValidationError::AssetCodeLength
    }
}

/// How an amount string relates to the decimal rules.
#[derive(Clone, Copy, PartialEq, Eq, Structural, Debug)]
pub enum AmountClass {
    /// Not a well-formed decimal numeral.
    Malformed,
    /// Well-formed, but zero or negative.
    NonPositive,
    /// Well-formed and strictly positive.
    Positive,
}

/// Classify an amount string against the decimal rules.
#[verifier::loop_isolation(false)]
pub fn classify_amount(s: &str) -> (r: AmountClass)
    ensures
        r == AmountClass::Malformed <==> !valid_decimal(s@),
        r == AmountClass::NonPositive <==> valid_decimal(s@) && !positive_decimal(s@),
        r == AmountClass::Positive <==> positive_decimal(s@),
{
    let n = s.unicode_len();
    if n == 0 {
        assert(!valid_decimal(s@));
        return AmountClass::Malformed;
    }
    let first = s.get_char(0);
    let start: usize = if first == '+' || first == '-' {
        1
    } else {
        0
    };
    proof {
        assert(start == sign_len(s@));
    }
    if n == start {
        assert(!valid_decimal(s@));
        return AmountClass::Malformed;
    }
    let ghost body: Seq<char> = s@.subrange(start as int, n as int);
    let mut i: usize = start;
    let mut seen_digit = false;
    let mut seen_dot = false;
    let mut seen_nonzero = false;
    while i < n
        invariant
            start <= i <= n,
            forall|k: int| start <= k < i ==> is_digit(#[trigger] s@[k]) || s@[k] == '.',
            seen_dot == exists|k: int| start <= k < i && #[trigger] s@[k] == '.',
            seen_digit == exists|k: int| start <= k < i && is_digit(#[trigger] s@[k]),
            seen_nonzero == exists|k: int|
                start <= k < i && '1' <= #[trigger] s@[k] && s@[k] <= '9',
            forall|k1: int, k2: int|
                start <= k1 < k2 < i ==> !(#[trigger] s@[k1] == '.' && #[trigger] s@[k2] == '.'),
        decreases n - i,
    {
        let c = s.get_char(i);
        if c == '.' {
            if seen_dot {
                proof {
                    let k = choose|k: int| start <= k < i && #[trigger] s@[k] == '.';
                    assert(body[k - start] == '.' && body[i - start] == '.');
                    assert(!valid_decimal_body(body));
                }
                return AmountClass::Malformed;
            }
            seen_dot = true;
        } else if c == '0' {
            seen_digit = true;
        } else if '1' <= c && c <= '9' {
            seen_digit = true;
            seen_nonzero = true;
        } else {
            proof {
                assert(body[i - start] == s@[i as int]);
                assert(!valid_decimal_body(body));
            }
            return AmountClass::Malformed;
        }
        i += 1;
    }
    if !seen_digit {
        proof {
            if valid_decimal_body(body) {
                let k = choose|k: int| 0 <= k < body.len() && is_digit(#[trigger] body[k]);
                assert(s@[k + start] == body[k]);
            }
        }
        return AmountClass::Malformed;
    }
    proof {
        let k = choose|k: int| start <= k < n && is_digit(#[trigger] s@[k]);
        assert(body[k - start] == s@[k]);
        assert forall|k1: int| 0 <= k1 < body.len() implies is_digit(#[trigger] body[k1])
            || body[k1] == '.' by {
            assert(body[k1] == s@[k1 + start]);
        }
        assert forall|k1: int, k2: int| 0 <= k1 < k2 < body.len() implies !(#[trigger] body[k1]
            == '.' && #[trigger] body[k2] == '.') by {
            assert(body[k1] == s@[k1 + start] && body[k2] == s@[k2 + start]);
        }
        assert(valid_decimal_body(body));
        assert(valid_decimal(s@));
    }
    if first == '-' {
        assert(!positive_decimal(s@));
        return AmountClass::NonPositive;
    }
    if !seen_nonzero {
        proof {
            if has_nonzero_digit(s@) {
                let k = choose|k: int| 0 <= k < n && '1' <= #[trigger] s@[k] && s@[k] <= '9';
                assert(!(start <= k < n));
                assert(k == 0 && start == 1);
                assert(s@[0] == '+' || s@[0] == '-');
            }
        }
        return AmountClass::NonPositive;
    }
    proof {
        let k = choose|k: int| start <= k < n && '1' <= #[trigger] s@[k] && s@[k] <= '9';
        assert(has_nonzero_digit(s@));
    }
    AmountClass::Positive
}

/// Validate a callback payload against the business rules; an invalid
/// payload is rejected with the first failing rule's error.
pub fn validate_payload(payload: &CallbackPayload) -> (r: Result<(), ValidationError>)
    ensures
        r is Ok <==> spec_valid_payload(*payload),
        r is Err ==> r == Err::<(), ValidationError>(spec_validation_error(*payload)),
{
    match classify_amount(payload.amount_in.as_str()) {
        AmountClass::Malformed => {
            return Err(ValidationError::AmountFormat);
        },
        AmountClass::NonPositive => {
            return Err(ValidationError::AmountNotPositive);
        },
        AmountClass::Positive => {},
    }
    if payload.stellar_account.unicode_len() != 56 {
        return Err(ValidationError::AccountLength);
    }
    if payload.stellar_account.get_char(0) != 'G' {
        return Err(ValidationError::AccountPrefix);
    }
    let asset_len = payload.asset_code.unicode_len();
    if asset_len == 0 || asset_len > 12 {
        return Err(ValidationError::AssetCodeLength);
    }
    Ok(())
}

/// Payload of the compatibility webhook endpoint.
#[derive(Debug)]
pub struct WebhookPayload {
    pub id: String,
    pub anchor_transaction_id: String,
}

/// Reply of the compatibility webhook endpoint.
#[derive(Debug)]
pub struct WebhookResponse {
    pub success: bool,
    pub message: String,
}

/// Acknowledge a webhook delivery; the reply names the delivery.
pub fn handle_webhook(payload: &WebhookPayload) -> (r: WebhookResponse)
    ensures
        r.success,
        r.message@ == "Webhook "@ + payload.id@ + " processed successfully"@,
{
    let mut message = String::from_str("Webhook ");
    message.append(payload.id.as_str());
    message.append(" processed successfully");
    proof {
        assert(message@ =~= "Webhook "@ + payload.id@ + " processed successfully"@);
    }
    WebhookResponse { success: true, message }
}

} // verus!

