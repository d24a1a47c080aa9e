//! Versioned interchange diagnostics: every feature a conversion meets is
//! recorded with what became of it, and a conversion is refused when a
//! finding is conflicting (always) or lossy (unless lossy output is allowed).
use vstd::prelude::*;
use crate::text;

verus! {

broadcast use vstd::string::group_string_axioms;

/// What a conversion did with one feature.
#[derive(Debug, Clone, Copy, PartialEq, Eq, Structural)]
pub enum Disposition {
    Converted,
    Preserved,
    Baked,
    Unsupported,
    Conflicting,
}

/// How serious a finding is.
#[derive(Debug, Clone, Copy, PartialEq, Eq, Structural)]
pub enum Severity {
    Info,
    Warning,
    Error,
}

/// One recorded feature, located inside the package.
#[derive(Debug)]
pub struct Finding {
    pub slide: Option<String>,
    pub part: String,
    pub element: String,
    pub feature: String,
    pub severity: Severity,
    pub disposition: Disposition,
    pub remedy: String,
}

/// A finding as plain values.
pub struct FindingView {
    pub slide: Option<Seq<char>>,
    pub part: Seq<char>,
    pub element: Seq<char>,
    pub feature: Seq<char>,
    pub severity: Severity,
    pub disposition: Disposition,
    pub remedy: Seq<char>,
}

impl Finding {
    pub open spec fn view(&self) -> FindingView {
        FindingView {
            slide: text::opt_seq(self.slide),
            part: self.part@,
            element: self.element@,
            feature: self.feature@,
            severity: self.severity,
            disposition: self.disposition,
            remedy: self.remedy@,
        }
    }

    /// A copy of this finding.
    pub fn duplicate(&self) -> (r: Finding)
        ensures
            r.view() == self.view(),
    {
        Finding {
            slide: text::clone_opt(&self.slide),
            part: self.part.clone(),
            element: self.element.clone(),
            feature: self.feature.clone(),
            severity: self.severity,
            disposition: self.disposition,
            remedy: self.remedy.clone(),
        }
    }
}

pub open spec fn finding_views(v: Seq<Finding>) -> Seq<FindingView> {
    v.map_values(|f: Finding| f.view())
}

/// The diagnostics of one conversion.
#[derive(Debug)]
pub struct Report {
    pub schema_version: u32,
    pub findings: Vec<Finding>,
}

impl Default for Report {
    fn default() -> (r: Self)
        ensures
            r.schema_version == 1,
            r.findings@.len() == 0,
    {
        Report { schema_version: 1, findings: Vec::new() }
    }
}

/// The severity of a disposition: conflicts are errors, baked and
/// unsupported features warnings, the rest informational.
pub open spec fn severity_of(d: Disposition) -> Severity {
    match d {
        Disposition::Conflicting => Severity::Error,
        Disposition::Unsupported | Disposition::Baked => Severity::Warning,
        _ => Severity::Info,
    }
}

/// Whether a finding blocks a conversion: a conflict always, a baked or
/// unsupported feature unless lossy output is allowed.
pub open spec fn blocks(d: Disposition, allow_lossy: bool) -> bool {
    d == Disposition::Conflicting || (!allow_lossy && (d == Disposition::Unsupported || d
        == Disposition::Baked))
}

/// Some finding of the report blocks the conversion under the policy.
pub open spec fn report_blocked(r: Report, allow_lossy: bool) -> bool {
    exists|i: int| 0 <= i < r.findings@.len() && blocks((#[trigger] r.findings@[i]).disposition, allow_lossy)
}

/// A conversion refused; the destination is left unchanged.
#[derive(Debug)]
pub struct Rejected(pub Report);

/// A converted value with its diagnostics.
#[derive(Debug)]
pub struct Conversion<T> {
    pub value: T,
    pub report: Report,
}

fn severity_for(d: Disposition) -> (s: Severity)
    ensures
        s == severity_of(d),
{
    match d {
        Disposition::Conflicting => Severity::Error,
        Disposition::Unsupported | Disposition::Baked => Severity::Warning,
        _ => Severity::Info,
    }
}

fn disposition_name(d: Disposition) -> (s: &'static str)
    ensures
        s@ == disposition_text(d),
{
    match d {
        Disposition::Converted => "Converted",
        Disposition::Preserved => "Preserved",
        Disposition::Baked => "Baked",
        Disposition::Unsupported => "Unsupported",
        Disposition::Conflicting => "Conflicting",
    }
}

pub open spec fn disposition_text(d: Disposition) -> Seq<char> {
    match d {
        Disposition::Converted => "Converted"@,
        Disposition::Preserved => "Preserved"@,
        Disposition::Baked => "Baked"@,
        Disposition::Unsupported => "Unsupported"@,
        Disposition::Conflicting => "Conflicting"@,
    }
}

/// The line a non-informational finding contributes to a report's text.
pub open spec fn finding_line(f: FindingView) -> Seq<char> {
    disposition_text(f.disposition) + ": "@ + f.part + "#"@ + f.element + ": "@ + f.feature
        + " \u{2014} "@ + f.remedy + "\n"@
}

/// The text of a report: one line per finding that is not informational.
pub open spec fn report_text(fs: Seq<FindingView>) -> Seq<char>
    decreases fs.len(),
{
    if fs.len() == 0 {
        Seq::empty()
    } else {
        report_text(fs.drop_last()) + if fs.last().severity != Severity::Info {
            finding_line(fs.last())
        } else {
            Seq::empty()
        }
    }
}

impl Report {
    /// Add one finding, with the severity its disposition carries.
    /// Locators are package-relative.
    pub fn record(
        &mut self,
        slide: Option<&str>,
        part: &str,
        element: &str,
        feature: &str,
        disposition: Disposition,
        remedy: &str,
    )
        ensures
            final(self).schema_version == old(self).schema_version,
            finding_views(final(self).findings@) == finding_views(old(self).findings@).push(
                FindingView {
                    slide: crate::slide::opt_str(slide),
                    part: part@,
                    element: element@,
                    feature: feature@,
                    severity: severity_of(disposition),
                    disposition,
                    remedy: remedy@,
                },
            ),
    {
        let ghost before = finding_views(self.findings@);
        let severity = severity_for(disposition);
        let f = Finding {
            slide: match slide {
                Some(s) => Some(s.to_string()),
                None => None,
            },
            part: part.to_string(),
            element: element.to_string(),
            feature: feature.to_string(),
            severity,
            disposition,
            remedy: remedy.to_string(),
        };
        self.findings.push(f);
        assert(finding_views(self.findings@) =~= before.push(f.view()));
    }

    /// A copy of this report.
    pub fn duplicate(&self) -> (r: Report)
        ensures
            r.schema_version == self.schema_version,
            finding_views(r.findings@) == finding_views(self.findings@),
    {
        let mut out: Vec<Finding> = Vec::new();
        let mut i: usize = 0;
        while i < self.findings.len()
            invariant
                i <= self.findings.len(),
                finding_views(out@) == finding_views(self.findings@).take(i as int),
            decreases self.findings.len() - i,
        {
            let ghost before = finding_views(out@);
            let f = self.findings[i].duplicate();
            let ghost fv = f.view();
            out.push(f);
            assert(finding_views(out@) =~= before.push(fv));
            i += 1;
            assert(finding_views(out@) =~= finding_views(self.findings@).take(i as int));
        }
        assert(finding_views(self.findings@).take(self.findings.len() as int) =~= finding_views(
            self.findings@,
        ));
        Report { schema_version: self.schema_version, findings: out }
    }

    /// Refuse the conversion when any finding conflicts, or, unless
    /// `allow_lossy`, when any feature was baked or left unsupported. A
    /// refusal carries a copy of the whole report.
    pub fn enforce(&self, allow_lossy: bool) -> (r: Result<(), Rejected>)
        ensures
            r is Err <==> exists|i: int|
                0 <= i < self.findings@.len() && blocks(
                    (#[trigger] self.findings@[i]).disposition,
                    allow_lossy,
                ),
            r matches Err(Rejected(rep)) ==> rep.schema_version == self.schema_version
                && finding_views(rep.findings@) == finding_views(self.findings@),
    {
        let mut i: usize = 0;
        while i < self.findings.len()
            invariant
                i <= self.findings.len(),
                forall|k: int| 0 <= k < i ==> !blocks(#[trigger] self.findings@[k].disposition, allow_lossy),
            decreases self.findings.len() - i,
        {
            let d = self.findings[i].disposition;
            let blocked = match d {
                Disposition::Conflicting => true,
                Disposition::Unsupported | Disposition::Baked => !allow_lossy,
                _ => false,
            };
            if blocked {
                return Err(Rejected(self.duplicate()));
            }
            i += 1;
        }
        Ok(())
    }

    /// The report as text: one line per warning or error, as
    /// `Disposition: part#element: feature — remedy`.
    pub fn render(&self) -> (s: String)
        ensures
            s@ == report_text(finding_views(self.findings@)),
    {
        let mut out: Vec<char> = Vec::new();
        let mut i: usize = 0;
        while i < self.findings.len()
            invariant
                i <= self.findings.len(),
                out@ == report_text(finding_views(self.findings@).take(i as int)),
            decreases self.findings.len() - i,
        {
            let f = &self.findings[i];
            assert(finding_views(self.findings@).take(i + 1).drop_last() =~= finding_views(
                self.findings@,
            ).take(i as int));
            if f.severity != Severity::Info {
                text::push_str(&mut out, disposition_name(f.disposition));
                text::push_str(&mut out, ": ");
                text::push_str(&mut out, f.part.as_str());
                text::push_str(&mut out, "#");
                text::push_str(&mut out, f.element.as_str());
                text::push_str(&mut out, ": ");
                text::push_str(&mut out, f.feature.as_str());
                text::push_str(&mut out, " \u{2014} ");
                text::push_str(&mut out, f.remedy.as_str());
                text::push_str(&mut out, "\n");
            }
            i += 1;
            assert(out@ =~= report_text(finding_views(self.findings@).take(i as int)));
        }
        assert(finding_views(self.findings@).take(self.findings.len() as int) =~= finding_views(
            self.findings@,
        ));
        text::string_of(out.as_slice())
    }
}

impl Rejected {
    /// The refusal as text: a headline, then the report's lines.
    pub fn render(&self) -> (s: String)
        ensures
            s@ == "PPTX conversion rejected; destination unchanged\n"@ + report_text(
                finding_views(self.0.findings@),
            ),
    {
        let mut out: Vec<char> = Vec::new();
        text::push_str(&mut out, "PPTX conversion rejected; destination unchanged\n");
        let body = self.0.render();
        text::push_str(&mut out, body.as_str());
        text::string_of(out.as_slice())
    }
}

/// Allowing lossy output never refuses more: whatever a check that allows
/// it refuses, the strict check refuses too; and a conflict is refused by
/// both.
pub proof fn lemma_strict_refuses_more(findings: Seq<Finding>)
    ensures
        (exists|i: int| 0 <= i < findings.len() && blocks((#[trigger] findings[i]).disposition, true)) ==> (exists|
            i: int,
        | 0 <= i < findings.len() && blocks((#[trigger] findings[i]).disposition, false)),
        forall|i: int|
            0 <= i < findings.len() && (#[trigger] findings[i]).disposition == Disposition::Conflicting ==> blocks(
                findings[i].disposition,
                true,
            ) && blocks(findings[i].disposition, false),
{
    if exists|i: int| 0 <= i < findings.len() && blocks((#[trigger] findings[i]).disposition, true) {
        let i = choose|i: int| 0 <= i < findings.len() && blocks((#[trigger] findings[i]).disposition, true);
        assert(blocks(findings[i].disposition, false));
    }
}

} // verus!
