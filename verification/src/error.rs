//! The errors that a caller of the channel sees.

use crate::lb::LoadBalancingError;
use vstd::prelude::*;

verus! {

/// Why no cluster could be chosen for a request.
#[derive(Debug, PartialEq, Eq)]
pub struct RoutingError {
    pub message: String,
}

impl Clone for RoutingError {
    fn clone(&self) -> (r: Self)
        ensures
            r == *self,
    {
        RoutingError { message: self.message.clone() }
    }
}

/// An error of the channel; `E` is the error of the transport.
#[derive(Debug, PartialEq, Eq)]
pub enum XdsError<E> {
    /// No target cluster could be determined.
    Routing(RoutingError),
    /// The request could not be given to a cluster's client.
    LoadBalancing(LoadBalancingError),
    /// The transport failed (connection refused, HTTP/2 error and the like).
    Transport(E),
}

impl<E> XdsError<E> {
    /// The class of an error, told by what it turned out to be: a routing error
    /// before a load balancing error, and a transport error otherwise.
    pub open spec fn classified(
        err: E,
        routing: Option<RoutingError>,
        load_balancing: Option<LoadBalancingError>,
    ) -> XdsError<E> {
        match (routing, load_balancing) {
            (Some(e), _) => XdsError::Routing(e),
            (None, Some(e)) => XdsError::LoadBalancing(e),
            (None, None) => XdsError::Transport(err),
        }
    }

    /// Classifies an error, given what it was recognised as.
    pub fn from_box_error(
        err: E,
        routing: Option<&RoutingError>,
        load_balancing: Option<&LoadBalancingError>,
    ) -> (r: XdsError<E>)
        ensures
            r == Self::classified(
                err,
                match routing {
                    Some(e) => Some(*e),
                    None => None,
                },
                match load_balancing {
                    Some(e) => Some(*e),
                    None => None,
                },
            ),
    {
        if let Some(e) = routing {
            return XdsError::Routing(e.clone());
        }
        if let Some(e) = load_balancing {
            return XdsError::LoadBalancing(e.clone());
        }
        XdsError::Transport(err)
    }

    /// The text of the error, given the transport's text for its own.
    pub open spec fn text(self, transport: Seq<char>) -> Seq<char> {
        match self {
            XdsError::Routing(e) => "routing failed: "@ + e.message@,
            XdsError::LoadBalancing(e) => "load balancing error: "@ + e.text(),
            XdsError::Transport(_) => "transport error: "@ + transport,
        }
    }

    /// The text of the error, given the transport's text for its own.
    pub fn to_string(&self, transport: &str) -> (r: String)
        ensures
            r@ == self.text(transport@),
    {
        match self {
            XdsError::Routing(e) => {
                let mut text = String::from_str("routing failed: ");
                text.append(e.message.as_str());
                text
            },
            XdsError::LoadBalancing(e) => {
                let mut text = String::from_str("load balancing error: ");
                text.append(e.to_string().as_str());
                text
            },
            XdsError::Transport(_) => {
                let mut text = String::from_str("transport error: ");
                text.append(transport);
                text
            },
        }
    }
}

/// An error that was recognised as one of routing is one, also if it was recognised as
/// one of load balancing too; otherwise one recognised as one of load balancing is that;
/// and any other is the transport's, unchanged.
pub proof fn law_errors_are_what_they_were_recognised_as<E>(
    err: E,
    routing: RoutingError,
    load_balancing: LoadBalancingError,
    other: Option<LoadBalancingError>,
)
    ensures
        XdsError::classified(err, Some(routing), other) == XdsError::<E>::Routing(routing),
        XdsError::classified(err, None, Some(load_balancing)) == XdsError::<E>::LoadBalancing(
            load_balancing,
        ),
        XdsError::classified(err, None, None) == XdsError::Transport(err),
{
}

/// The text of an error is what its cause says, after a word on where it comes from.
pub proof fn law_texts_say_where_errors_come_from<E>(
    err: E,
    routing: RoutingError,
    load_balancing: LoadBalancingError,
    transport: Seq<char>,
)
    ensures
        XdsError::<E>::Routing(routing).text(transport) == "routing failed: "@ + routing.message@,
        XdsError::<E>::LoadBalancing(load_balancing).text(transport) == "load balancing error: "@
            + load_balancing.text(),
        XdsError::Transport(err).text(transport) == "transport error: "@ + transport,
{
}

} // verus!
