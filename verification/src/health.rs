//! Health checks for production monitoring.

use vstd::prelude::*;
use vstd::string::*;

verus! {

/// Status of a health check.
#[derive(Debug, Clone, Copy, PartialEq, Eq, Structural)]
pub enum CheckStatus {
    /// Check passed, system is operating normally.
    Healthy,
    /// Degraded performance, but the system is still functional.
    Degraded,
    /// Check failed, system is in critical condition.
    Unhealthy,
}

/// The display text of a status.
pub open spec fn status_text(s: CheckStatus) -> Seq<char> {
    match s {
        CheckStatus::Healthy => "HEALTHY"@,
        CheckStatus::Degraded => "DEGRADED"@,
        CheckStatus::Unhealthy => "UNHEALTHY"@,
    }
}

/// The icon shown before a check of status `s`.
pub open spec fn status_icon_text(s: CheckStatus) -> Seq<char> {
    match s {
        CheckStatus::Healthy => "✅"@,
        CheckStatus::Degraded => "⚠️ "@,
        CheckStatus::Unhealthy => "❌"@,
    }
}

impl CheckStatus {
    /// The display text: "HEALTHY", "DEGRADED" or "UNHEALTHY".
    pub fn display_string(&self) -> (r: String)
        ensures
            r@ == status_text(*self),
    {
        match self {
            CheckStatus::Healthy => "HEALTHY".to_owned(),
            CheckStatus::Degraded => "DEGRADED".to_owned(),
            CheckStatus::Unhealthy => "UNHEALTHY".to_owned(),
        }
    }
}

/// Individual health check result.
#[derive(Debug, Clone, PartialEq, Eq)]
pub struct HealthCheck {
    /// Name of the check (e.g., "disk_space", "compaction_lag").
    pub name: String,
    /// Status of this check.
    pub status: CheckStatus,
    /// Optional message with details.
    pub message: Option<String>,
}

/// The display text of a check: `name: STATUS`, then ` - message` if any.
pub open spec fn check_text(c: HealthCheck) -> Seq<char> {
    c.name@ + ": "@ + status_text(c.status) + match c.message {
        Some(m) => " - "@ + m@,
        None => Seq::empty(),
    }
}

impl HealthCheck {
    /// Create a healthy check.
    pub fn healthy(name: &str) -> (r: Self)
        ensures
            r.name@ == name@,
            r.status == CheckStatus::Healthy,
            r.message is None,
    {
        Self { name: name.to_owned(), status: CheckStatus::Healthy, message: None }
    }

    /// Create a healthy check with a message.
    pub fn healthy_with_message(name: &str, message: &str) -> (r: Self)
        ensures
            r.name@ == name@,
            r.status == CheckStatus::Healthy,
            r.message is Some && r.message.unwrap()@ == message@,
    {
        Self { name: name.to_owned(), status: CheckStatus::Healthy, message: Some(message.to_owned()) }
    }

    /// Create a degraded check.
    pub fn degraded(name: &str, message: &str) -> (r: Self)
        ensures
            r.name@ == name@,
            r.status == CheckStatus::Degraded,
            r.message is Some && r.message.unwrap()@ == message@,
    {
        Self { name: name.to_owned(), status: CheckStatus::Degraded, message: Some(message.to_owned()) }
    }

    /// Create an unhealthy check.
    pub fn unhealthy(name: &str, message: &str) -> (r: Self)
        ensures
            r.name@ == name@,
            r.status == CheckStatus::Unhealthy,
            r.message is Some && r.message.unwrap()@ == message@,
    {
        Self { name: name.to_owned(), status: CheckStatus::Unhealthy, message: Some(message.to_owned()) }
    }

    /// The icon for this check's status.
    fn status_icon(&self) -> (r: &'static str)
        ensures
            r@ == status_icon_text(self.status),
    {
        match self.status {
            CheckStatus::Healthy => "✅",
            CheckStatus::Degraded => "⚠️ ",
            CheckStatus::Unhealthy => "❌",
        }
    }

    /// The display text: `name: STATUS`, then ` - message` if any.
    pub fn display_string(&self) -> (r: String)
        ensures
            r@ == check_text(*self),
    {
        let s = self.name.clone();
        let s = s.concat(": ");
        let status = self.status.display_string();
        let s = s.concat(status.as_str());
        match &self.message {
            Some(msg) => {
                let s = s.concat(" - ");
                s.concat(msg.as_str())
            },
            None => {
                proof {
                    assert(s@ + Seq::<char>::empty() =~= s@);
                }
                s
            },
        }
    }
}

/// Overall health status of the database.
#[derive(Debug, Clone, PartialEq, Eq)]
pub struct HealthStatus {
    /// Overall health: true if all checks are healthy.
    pub healthy: bool,
    /// Individual health checks.
    pub checks: Vec<HealthCheck>,
}

/// Whether every check is healthy.
pub open spec fn all_healthy(checks: Seq<HealthCheck>) -> bool {
    forall|i: int| 0 <= i < checks.len() ==> (#[trigger] checks[i]).status == CheckStatus::Healthy
}

/// Whether some check has status `s`.
pub open spec fn any_with(checks: Seq<HealthCheck>, s: CheckStatus) -> bool {
    exists|i: int| 0 <= i < checks.len() && (#[trigger] checks[i]).status == s
}

/// The headline of a report.
pub open spec fn headline_text(st: HealthStatus) -> Seq<char> {
    if st.healthy {
        "✅ Database is HEALTHY"@
    } else if any_with(st.checks@, CheckStatus::Unhealthy) {
        "❌ Database is UNHEALTHY"@
    } else {
        "⚠️  Database is DEGRADED"@
    }
}

/// The lines of the checks: two spaces, icon, a space, the check's text.
pub open spec fn check_lines(checks: Seq<HealthCheck>) -> Seq<char>
    decreases checks.len(),
{
    if checks.len() == 0 {
        Seq::empty()
    } else {
        check_lines(checks.drop_last()) + "  "@ + status_icon_text(checks.last().status) + " "@
            + check_text(checks.last()) + "\n"@
    }
}

/// The display text of a report: the headline, then one line per check.
pub open spec fn report_text(st: HealthStatus) -> Seq<char> {
    headline_text(st) + "\n"@ + check_lines(st.checks@)
}

impl HealthStatus {
    /// Create a health status; it is healthy when every check is.
    pub fn new(checks: Vec<HealthCheck>) -> (r: Self)
        ensures
            r.checks@ == checks@,
            r.healthy == all_healthy(checks@),
    {
        let n = checks.len();
        let mut healthy = true;
        let mut i: usize = 0;
        while i < n
            invariant
                n == checks@.len(),
                i <= n,
                healthy == forall|j: int| 0 <= j < i ==> (#[trigger] checks@[j]).status == CheckStatus::Healthy,
            decreases n - i,
        {
            if checks[i].status != CheckStatus::Healthy {
                healthy = false;
            }
            i = i + 1;
        }
        Self { healthy, checks }
    }

    /// Check if any check has the given status.
    fn any_status(&self, s: CheckStatus) -> (r: bool)
        ensures
            r == any_with(self.checks@, s),
    {
        let n = self.checks.len();
        let mut i: usize = 0;
        while i < n
            invariant
                n == self.checks@.len(),
                i <= n,
                forall|j: int| 0 <= j < i ==> (#[trigger] self.checks@[j]).status != s,
            decreases n - i,
        {
            if self.checks[i].status == s {
                return true;
            }
            i = i + 1;
        }
        false
    }

    /// Check if any check is unhealthy.
    pub fn has_unhealthy(&self) -> (r: bool)
        ensures
            r == any_with(self.checks@, CheckStatus::Unhealthy),
    {
        self.any_status(CheckStatus::Unhealthy)
    }

    /// Check if any check is degraded.
    pub fn has_degraded(&self) -> (r: bool)
        ensures
            r == any_with(self.checks@, CheckStatus::Degraded),
    {
        self.any_status(CheckStatus::Degraded)
    }

    /// The display text: the headline, then one line per check.
    pub fn display_string(&self) -> (r: String)
        ensures
            r@ == report_text(*self),
    {
        let head = if self.healthy {
            "✅ Database is HEALTHY"
        } else if self.has_unhealthy() {
            "❌ Database is UNHEALTHY"
        } else {
            "⚠️  Database is DEGRADED"
        };
        let mut s = head.to_owned().concat("\n");
        let n = self.checks.len();
        let mut i: usize = 0;
        proof {
            assert(self.checks@.take(0) =~= Seq::<HealthCheck>::empty());
        }
        while i < n
            invariant
                n == self.checks@.len(),
                i <= n,
                s@ == headline_text(*self) + "\n"@ + check_lines(self.checks@.take(i as int)),
            decreases n - i,
        {
            let check = &self.checks[i];
            let line = check.display_string();
            let icon = check.status_icon();
            let s2 = s.concat("  ");
            let s3 = s2.concat(icon);
            let s4 = s3.concat(" ");
            let s5 = s4.concat(line.as_str());
            s = s5.concat("\n");
            proof {
                let t = self.checks@.take(i + 1);
                assert(t.drop_last() =~= self.checks@.take(i as int));
                assert(t.last() == self.checks@[i as int]);
                assert(s@ =~= headline_text(*self) + "\n"@ + check_lines(t));
            }
            i = i + 1;
        }
        proof {
            assert(self.checks@.take(n as int) =~= self.checks@);
        }
        s
    }
}

/// Law: a report is healthy exactly when it has neither unhealthy nor
/// degraded checks (every check has one of the three statuses).
pub proof fn law_healthy_iff_no_problems(checks: Seq<HealthCheck>)
    ensures
        all_healthy(checks) <==> (!any_with(checks, CheckStatus::Unhealthy) && !any_with(
            checks,
            CheckStatus::Degraded,
        )),
{
    if !all_healthy(checks) {
        let i = choose|i: int| 0 <= i < checks.len() && (#[trigger] checks[i]).status != CheckStatus::Healthy;
        assert(checks[i].status == CheckStatus::Unhealthy || checks[i].status == CheckStatus::Degraded);
    }
}

} // verus!
