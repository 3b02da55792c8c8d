//! Counts handed to observability when container metrics are scraped.
//! Each event computes the counter increments it stands for; the caller's
//! metrics layer performs the emission.

use vstd::prelude::*;
use crate::config_text::dec_seq;

verus! {

/// One counter increment with its labels: the name, the amount, and the
/// label pairs.
pub struct CounterUpdate {
    pub name: String,
    pub amount: u64,
    pub labels: Vec<(String, String)>,
}

/// Events received from the metrics endpoint: so many events, so many
/// bytes, from one HTTP path.
#[derive(Clone, Debug)]
pub struct AwsEcsMetricsEventsReceived {
    pub byte_size: usize,
    pub count: usize,
    pub http_path: String,
}

impl AwsEcsMetricsEventsReceived {
    /// The counter increments this event stands for: the received-events
    /// and received-bytes totals, each labelled with the HTTP path, and
    /// the legacy events-in total, unlabelled.
    pub fn emit(self) -> (r: Vec<CounterUpdate>)
        ensures
            r@.len() == 3,
            r@[0].name@ == "component_received_events_total"@ && r@[0].amount == self.count,
            r@[0].labels@.len() == 1 && r@[0].labels@[0].0@ == "http_path"@
                && r@[0].labels@[0].1@ == self.http_path@,
            r@[1].name@ == "component_received_event_bytes_total"@ && r@[1].amount
                == self.byte_size,
            r@[1].labels@.len() == 1 && r@[1].labels@[0].0@ == "http_path"@
                && r@[1].labels@[0].1@ == self.http_path@,
            r@[2].name@ == "events_in_total"@ && r@[2].amount == self.count,
            r@[2].labels@.len() == 0,
    {
        let mut labels_a: Vec<(String, String)> = Vec::new();
        labels_a.push((String::from_str("http_path"), self.http_path.clone()));
        let mut labels_b: Vec<(String, String)> = Vec::new();
        labels_b.push((String::from_str("http_path"), self.http_path));
        let mut out: Vec<CounterUpdate> = Vec::new();
        out.push(
            CounterUpdate {
                name: String::from_str("component_received_events_total"),
                amount: self.count as u64,
                labels: labels_a,
            },
        );
        out.push(
            CounterUpdate {
                name: String::from_str("component_received_event_bytes_total"),
                amount: self.byte_size as u64,
                labels: labels_b,
            },
        );
        out.push(
            CounterUpdate {
                name: String::from_str("events_in_total"),
                amount: self.count as u64,
                labels: Vec::new(),
            },
        );
        out
    }
}

/// One scrape request completed, from `start` to `end`, in nanoseconds on
/// the caller's clock.
#[derive(Clone, Copy, Debug, PartialEq, Eq, Structural)]
pub struct AwsEcsMetricsRequestCompleted {
    pub start: u64,
    pub end: u64,
}

impl AwsEcsMetricsRequestCompleted {
    /// The measurement this event stands for: one completed request, and
    /// its duration for the request-duration histogram.
    pub fn emit(self) -> (r: (u64, u64))
        requires
            self.start <= self.end,
        ensures
            r.0 == 1,
            r.1 == self.end - self.start,
    {
        (1, self.end - self.start)
    }
}

/// A metrics response failed to parse: the rendered error, the endpoint it
/// came from, and the body that would not parse.
#[derive(Clone, Debug)]
pub struct AwsEcsMetricsParseError {
    pub error: String,
    pub endpoint: String,
    pub body: String,
}

impl AwsEcsMetricsParseError {
    /// The counter increments this error stands for: one parse error, and
    /// one component error labelled with the processing stage, the parser
    /// failure type, and the endpoint.
    pub fn emit(self) -> (r: Vec<CounterUpdate>)
        ensures
            r@.len() == 2,
            r@[0].name@ == "parse_errors_total"@ && r@[0].amount == 1 && r@[0].labels@.len() == 0,
            r@[1].name@ == "component_errors_total"@ && r@[1].amount == 1,
            r@[1].labels@.len() == 3,
            r@[1].labels@[0].0@ == "stage"@ && r@[1].labels@[0].1@ == "processing"@,
            r@[1].labels@[1].0@ == "error_type"@ && r@[1].labels@[1].1@ == "parser_failed"@,
            r@[1].labels@[2].0@ == "endpoint"@ && r@[1].labels@[2].1@ == self.endpoint@,
    {
        let mut labels: Vec<(String, String)> = Vec::new();
        labels.push((String::from_str("stage"), String::from_str("processing")));
        labels.push((String::from_str("error_type"), String::from_str("parser_failed")));
        labels.push((String::from_str("endpoint"), self.endpoint));
        let mut out: Vec<CounterUpdate> = Vec::new();
        out.push(
            CounterUpdate {
                name: String::from_str("parse_errors_total"),
                amount: 1,
                labels: Vec::new(),
            },
        );
        out.push(
            CounterUpdate { name: String::from_str("component_errors_total"), amount: 1, labels },
        );
        out
    }
}

/// The metrics endpoint answered with an HTTP error status.
#[derive(Clone, Debug)]
pub struct AwsEcsMetricsResponseError {
    pub code: u16,
    pub endpoint: String,
}

impl AwsEcsMetricsResponseError {
    /// The counter increments this error stands for: one error response,
    /// and one component error labelled with the receiving stage, the
    /// status code, the request failure type, and the endpoint.
    pub fn emit(self) -> (r: Vec<CounterUpdate>)
        ensures
            r@.len() == 2,
            r@[0].name@ == "http_error_response_total"@ && r@[0].amount == 1,
            r@[1].name@ == "component_errors_total"@ && r@[1].amount == 1,
            r@[1].labels@.len() == 4,
            r@[1].labels@[0].0@ == "stage"@ && r@[1].labels@[0].1@ == "receiving"@,
            r@[1].labels@[1].0@ == "error_code"@ && r@[1].labels@[1].1@ == dec_seq(
                self.code as int,
            ),
            r@[1].labels@[2].0@ == "error_type"@ && r@[1].labels@[2].1@ == "request_failed"@,
            r@[1].labels@[3].0@ == "endpoint"@ && r@[1].labels@[3].1@ == self.endpoint@,
    {
        let mut labels: Vec<(String, String)> = Vec::new();
        labels.push((String::from_str("stage"), String::from_str("receiving")));
        labels.push((String::from_str("error_code"), crate::config_text::u64_to_string(
            self.code as u64,
        )));
        labels.push((String::from_str("error_type"), String::from_str("request_failed")));
        labels.push((String::from_str("endpoint"), self.endpoint));
        let mut out: Vec<CounterUpdate> = Vec::new();
        out.push(
            CounterUpdate {
                name: String::from_str("http_error_response_total"),
                amount: 1,
                labels: Vec::new(),
            },
        );
        out.push(
            CounterUpdate { name: String::from_str("component_errors_total"), amount: 1, labels },
        );
        out
    }
}

/// The request to the metrics endpoint itself failed: the client's rendered
/// error code and the endpoint.
#[derive(Clone, Debug)]
pub struct AwsEcsMetricsHttpError {
    pub error_code: String,
    pub endpoint: String,
}

impl AwsEcsMetricsHttpError {
    /// The counter increments this error stands for: one request error,
    /// and one component error labelled with the receiving stage, the
    /// request failure type, the client's error code, and the endpoint.
    pub fn emit(self) -> (r: Vec<CounterUpdate>)
        ensures
            r@.len() == 2,
            r@[0].name@ == "http_request_errors_total"@ && r@[0].amount == 1,
            r@[1].name@ == "component_errors_total"@ && r@[1].amount == 1,
            r@[1].labels@.len() == 4,
            r@[1].labels@[0].0@ == "stage"@ && r@[1].labels@[0].1@ == "receiving"@,
            r@[1].labels@[1].0@ == "error_type"@ && r@[1].labels@[1].1@ == "request_failed"@,
            r@[1].labels@[2].0@ == "error_code"@ && r@[1].labels@[2].1@ == self.error_code@,
            r@[1].labels@[3].0@ == "endpoint"@ && r@[1].labels@[3].1@ == self.endpoint@,
    {
        let mut labels: Vec<(String, String)> = Vec::new();
        labels.push((String::from_str("stage"), String::from_str("receiving")));
        labels.push((String::from_str("error_type"), String::from_str("request_failed")));
        labels.push((String::from_str("error_code"), self.error_code));
        labels.push((String::from_str("endpoint"), self.endpoint));
        let mut out: Vec<CounterUpdate> = Vec::new();
        out.push(
            CounterUpdate {
                name: String::from_str("http_request_errors_total"),
                amount: 1,
                labels: Vec::new(),
            },
        );
        out.push(
            CounterUpdate { name: String::from_str("component_errors_total"), amount: 1, labels },
        );
        out
    }
}

} // verus!
